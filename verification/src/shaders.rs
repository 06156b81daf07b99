//! The names of the compositor's embedded shaders.

use vstd::prelude::*;

verus! {

/// Every embedded compositor shader, by short name.
pub open spec fn shader_names() -> Seq<Seq<char>> {
    seq!["yuv_to_rgb"@, "transform"@, "blend"@, "mask"@, "transition"@, "blit"@]
}

/// The embedded shader names, in registry order.
pub fn embedded_shader_names() -> (names: Vec<&'static str>)
    ensures
        names@.len() == shader_names().len(),
        forall|i: int| 0 <= i < names@.len() ==> (#[trigger] names@[i])@ == shader_names()[i],
{
    vec!["yuv_to_rgb", "transform", "blend", "mask", "transition", "blit"]
}

/// The position of `name` among the embedded shaders, if it is one.
fn shader_index(name: &str) -> (idx: Option<usize>)
    ensures
        match idx {
            Some(i) => i < shader_names().len() && shader_names()[i as int] == name@,
            None => !shader_names().contains(name@),
        },
{
    let names = embedded_shader_names();
    let wanted = name.to_owned();
    let mut i: usize = 0;
    while i < names.len()
        invariant
            wanted@ == name@,
            i <= names@.len(),
            names@.len() == shader_names().len(),
            forall|k: int| 0 <= k < names@.len() ==> (#[trigger] names@[k])@ == shader_names()[k],
            forall|k: int| 0 <= k < i ==> shader_names()[k] != name@,
        decreases names@.len() - i,
    {
        let candidate = names[i].to_owned();
        if candidate == wanted {
            return Some(i);
        }
        i += 1;
    }
    assert(!shader_names().contains(name@)) by {
        if shader_names().contains(name@) {
            let k = choose|k: int| 0 <= k < shader_names().len() && shader_names()[k] == name@;
        }
    }
    None
}

/// Whether `name` is an embedded shader.
pub fn is_embedded_shader(name: &str) -> (b: bool)
    ensures
        b == shader_names().contains(name@),
{
    shader_index(name).is_some()
}

/// The registry's own `'static` copy of the embedded shader name `name`.
pub fn name_of(name: &str) -> (n: &'static str)
    requires
        shader_names().contains(name@),
    ensures
        n@ == name@,
{
    let names = embedded_shader_names();
    match shader_index(name) {
        Some(i) => names[i],
        None => names[0],
    }
}

} // verus!
