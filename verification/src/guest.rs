//! The example guest: the greeting computation behind the `hello-world`
//! export.
use vstd::prelude::*;

verus! {

/// The view of an optional name argument.
pub open spec fn opt_name_view(name: Option<Vec<char>>) -> Option<Seq<char>> {
    match name {
        Some(n) => Some(n@),
        None => None,
    }
}

/// The greeting: the chosen salutation, a comma and a space, the given
/// name or the default, and an exclamation mark.
pub open spec fn greeting(goodbye: bool, name: Option<Seq<char>>) -> Seq<char> {
    (if goodbye {
        seq!['G', 'o', 'o', 'd', 'b', 'y', 'e']
    } else {
        seq!['H', 'e', 'l', 'l', 'o']
    }) + seq![',', ' '] + (match name {
        Some(n) => n,
        None => seq!['w', 'o', 'r', 'l', 'd'],
    }) + seq!['!']
}

/// The example component.
pub struct Component;

impl Component {
    /// Say hello!
    pub fn hello_world(goodbye: bool, name: Option<Vec<char>>) -> (r: Vec<char>)
        ensures
            r@ == greeting(goodbye, opt_name_view(name)),
    {
        let ghost gname = opt_name_view(name);
        let mut out: Vec<char> = Vec::new();
        if goodbye {
            out.push('G');
            out.push('o');
            out.push('o');
            out.push('d');
            out.push('b');
            out.push('y');
            out.push('e');
        } else {
            out.push('H');
            out.push('e');
            out.push('l');
            out.push('l');
            out.push('o');
        }
        out.push(',');
        out.push(' ');
        match name {
            Some(n) => {
                crate::codec::push_chars(&mut out, &n);
            },
            None => {
                out.push('w');
                out.push('o');
                out.push('r');
                out.push('l');
                out.push('d');
            },
        }
        out.push('!');
        proof {
            assert(out@ =~= greeting(goodbye, gname));
        }
        out
    }
}

} // verus!
