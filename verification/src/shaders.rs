//! Which shader a resource holds, and the names of the shaders of a program.

use crate::resources;
use vstd::prelude::*;
use vstd::string::{StrSliceExecFns, StringExecFns};

verus! {

/// The stage of the pipeline that a shader is written for.
#[derive(Clone, Copy, Debug, PartialEq, Eq, Structural)]
pub enum ShaderKind {
    Vertex,
    Fragment,
}

/// Why a shader or a program could not be made from its resources.
#[derive(Debug)]
pub enum Error {
    /// The resource could not be loaded.
    ResourceLoad { name: String, inner: resources::Error },
    /// The name of the resource does not end like a shader of a known kind.
    CanNotDetermineShaderTypeForResource { name: String },
    /// The shader did not compile.
    CompileError { name: String, message: String },
    /// The program did not link.
    LinkError { name: String, message: String },
}

/// The end of the name of a vertex shader.
pub open spec fn vertex_suffix() -> Seq<char> {
    ".vert"@
}

/// The end of the name of a fragment shader.
pub open spec fn fragment_suffix() -> Seq<char> {
    ".frag"@
}

/// `text` ends with `suffix`.
pub open spec fn ends_with(text: Seq<char>, suffix: Seq<char>) -> bool {
    &&& suffix.len() <= text.len()
    &&& text.subrange(text.len() - suffix.len(), text.len() as int) =~= suffix
}

/// The kind of shader that a resource of this name holds: a vertex shader
/// where the name ends in `.vert`, a fragment shader where it ends in
/// `.frag`.
pub open spec fn kind_of(name: Seq<char>) -> Option<ShaderKind> {
    if ends_with(name, vertex_suffix()) {
        Some(ShaderKind::Vertex)
    } else if ends_with(name, fragment_suffix()) {
        Some(ShaderKind::Fragment)
    } else {
        None
    }
}

/// Whether `text` ends with `suffix`.
pub fn has_suffix(text: &str, suffix: &str) -> (r: bool)
    ensures
        r == ends_with(text@, suffix@),
{
    let n: usize = text.unicode_len();
    let m: usize = suffix.unicode_len();
    if m > n {
        return false;
    }
    let ghost tail = text@.subrange(n - m, n as int);
    let mut i: usize = 0;
    while i < m
        invariant
            m <= n,
            n == text@.len(),
            m == suffix@.len(),
            i <= m,
            tail == text@.subrange(n - m, n as int),
            forall|j: int| 0 <= j < i ==> tail[j] == suffix@[j],
        decreases m - i,
    {
        if text.get_char(n - m + i) != suffix.get_char(i) {
            assert(tail[i as int] != suffix@[i as int]);
            return false;
        }
        i = i + 1;
    }
    true
}

/// The kind of the shader in the resource `name`, told by the end of the
/// name.
pub fn shader_kind(name: &str) -> (result: Result<ShaderKind, Error>)
    ensures
        match kind_of(name@) {
            Some(kind) => result is Ok && result->Ok_0 == kind,
            None => result is Err && (result->Err_0 matches Error::CanNotDetermineShaderTypeForResource {
                name: n,
            } && n@ == name@),
        },
{
    if has_suffix(name, ".vert") {
        Ok(ShaderKind::Vertex)
    } else if has_suffix(name, ".frag") {
        Ok(ShaderKind::Fragment)
    } else {
        Err(Error::CanNotDetermineShaderTypeForResource { name: name.to_owned() })
    }
}

/// The resources that hold the shaders of the program `name`: its vertex
/// shader and its fragment shader, in this order.
pub fn program_shader_names(name: &str) -> (names: Vec<String>)
    ensures
        names.len() == 2,
        names[0]@ == name@ + vertex_suffix(),
        names[1]@ == name@ + fragment_suffix(),
{
    let mut names: Vec<String> = Vec::new();
    names.push(name.to_owned().concat(".vert"));
    names.push(name.to_owned().concat(".frag"));
    names
}

/// What loading the source of the shader `name` comes to: the source where
/// it was loaded, else the failure with the name of the resource.
pub fn loaded<T>(name: &str, outcome: Result<T, resources::Error>) -> (result: Result<T, Error>)
    ensures
        match outcome {
            Ok(source) => result is Ok && result->Ok_0 == source,
            Err(error) => result is Err && (result->Err_0 matches Error::ResourceLoad {
                name: n,
                inner,
            } && n@ == name@ && inner == error),
        },
{
    match outcome {
        Ok(source) => Ok(source),
        Err(error) => Err(Error::ResourceLoad { name: name.to_owned(), inner: error }),
    }
}

/// What compiling the shader `name` comes to: the shader where it compiled,
/// else the compiler's message with the name of the resource.
pub fn compiled<T>(name: &str, outcome: Result<T, String>) -> (result: Result<T, Error>)
    ensures
        match outcome {
            Ok(shader) => result is Ok && result->Ok_0 == shader,
            Err(text) => result is Err && (result->Err_0 matches Error::CompileError {
                name: n,
                message,
            } && n@ == name@ && message@ == text@),
        },
{
    match outcome {
        Ok(shader) => Ok(shader),
        Err(message) => Err(Error::CompileError { name: name.to_owned(), message }),
    }
}

/// What linking the program `name` comes to: the program where it linked,
/// else the linker's message with the name of the program.
pub fn linked<T>(name: &str, outcome: Result<T, String>) -> (result: Result<T, Error>)
    ensures
        match outcome {
            Ok(program) => result is Ok && result->Ok_0 == program,
            Err(text) => result is Err && (result->Err_0 matches Error::LinkError {
                name: n,
                message,
            } && n@ == name@ && message@ == text@),
        },
{
    match outcome {
        Ok(program) => Ok(program),
        Err(message) => Err(Error::LinkError { name: name.to_owned(), message }),
    }
}

/// The shaders of a program are of the two kinds, told by their names.
pub proof fn lemma_program_shader_kinds(name: Seq<char>)
    ensures
        kind_of(name + vertex_suffix()) == Some(ShaderKind::Vertex),
        kind_of(name + fragment_suffix()) == Some(ShaderKind::Fragment),
{
    reveal_strlit(".vert");
    reveal_strlit(".frag");
    let v = name + vertex_suffix();
    let f = name + fragment_suffix();
    assert(v.subrange(v.len() - 5, v.len() as int) =~= vertex_suffix());
    assert(f.subrange(f.len() - 5, f.len() as int) =~= fragment_suffix());
    assert(f.subrange(f.len() - 5, f.len() as int)[1] != vertex_suffix()[1]);
}

} // verus!
