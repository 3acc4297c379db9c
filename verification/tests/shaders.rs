use rustgl::resources;
use rustgl::shaders::{
    compiled, has_suffix, linked, loaded, program_shader_names, shader_kind, Error, ShaderKind,
};

#[test]
fn kind_is_told_by_the_end_of_the_name() {
    assert_eq!(shader_kind("shaders/triangle.vert").unwrap(), ShaderKind::Vertex);
    assert_eq!(shader_kind("shaders/triangle.frag").unwrap(), ShaderKind::Fragment);
    assert_eq!(shader_kind(".vert").unwrap(), ShaderKind::Vertex);
    assert_eq!(shader_kind("a.frag.vert").unwrap(), ShaderKind::Vertex);
    assert_eq!(shader_kind("a.vert.frag").unwrap(), ShaderKind::Fragment);
}

#[test]
fn other_names_have_no_kind() {
    for name in ["shaders/triangle", "", "vert", "a.vert ", "a.VERT", "a.vertx", "a.geom"] {
        match shader_kind(name) {
            Err(Error::CanNotDetermineShaderTypeForResource { name: named }) => {
                assert_eq!(named, name)
            }
            other => panic!("unexpected {:?}", other),
        }
    }
}

#[test]
fn suffix_test() {
    assert!(has_suffix("abc", "bc"));
    assert!(has_suffix("abc", "abc"));
    assert!(has_suffix("abc", ""));
    assert!(has_suffix("", ""));
    assert!(!has_suffix("abc", "ab"));
    assert!(!has_suffix("bc", "abc"));
    assert!(!has_suffix("", "a"));
    assert!(has_suffix("grüß", "üß"));
    assert!(!has_suffix("grüß", "uß"));
}

#[test]
fn program_has_a_vertex_and_a_fragment_shader() {
    let names = program_shader_names("shaders/triangle_test");
    assert_eq!(names, vec!["shaders/triangle_test.vert", "shaders/triangle_test.frag"]);
    assert_eq!(shader_kind(&names[0]).unwrap(), ShaderKind::Vertex);
    assert_eq!(shader_kind(&names[1]).unwrap(), ShaderKind::Fragment);
}

#[test]
fn loaded_source_is_handed_on() {
    let outcome: Result<Vec<u8>, resources::Error> = Ok(vec![1, 2, 3]);
    assert_eq!(loaded("a.vert", outcome).unwrap(), vec![1, 2, 3]);
}

#[test]
fn failure_to_load_names_the_resource() {
    let outcome: Result<Vec<u8>, resources::Error> = Err(resources::Error::MalformedFile);
    match loaded("shaders/a.vert", outcome) {
        Err(Error::ResourceLoad { name, inner: resources::Error::MalformedFile }) => {
            assert_eq!(name, "shaders/a.vert")
        }
        other => panic!("unexpected {:?}", other),
    }
}

#[test]
fn compiled_shader_is_handed_on() {
    let outcome: Result<u32, String> = Ok(7);
    assert_eq!(compiled("a.vert", outcome).unwrap(), 7);
}

#[test]
fn failure_to_compile_names_the_shader() {
    let outcome: Result<u32, String> = Err(String::from("0:1: syntax error"));
    match compiled("shaders/a.frag", outcome) {
        Err(Error::CompileError { name, message }) => {
            assert_eq!(name, "shaders/a.frag");
            assert_eq!(message, "0:1: syntax error");
        }
        other => panic!("unexpected {:?}", other),
    }
}

#[test]
fn linked_program_is_handed_on() {
    let outcome: Result<u32, String> = Ok(3);
    assert_eq!(linked("triangle", outcome).unwrap(), 3);
}

#[test]
fn failure_to_link_names_the_program() {
    let outcome: Result<u32, String> = Err(String::from("unresolved symbol"));
    match linked("shaders/triangle", outcome) {
        Err(Error::LinkError { name, message }) => {
            assert_eq!(name, "shaders/triangle");
            assert_eq!(message, "unresolved symbol");
        }
        other => panic!("unexpected {:?}", other),
    }
}
