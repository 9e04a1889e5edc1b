//! The `hello` tool: a single hello-world greeting.

use vstd::prelude::*;

use crate::mcp::common::joined;

verus! {

/// The `hello` tool's parameters.
pub struct HelloRequest {
    /// Who to greet. Defaults to "world".
    pub name: Option<String>,
}

/// The greeting for `name`, "world" when there is none.
pub open spec fn greeting_text(name: Option<Seq<char>>) -> Seq<char> {
    "Hello, "@ + match name {
        Some(n) => n,
        None => "world"@,
    } + "!"@
}

/// The greeting holds the given name whole: `Hello, `, every character of the
/// name, then `!`; with no name it is `Hello, world!`.
pub proof fn lemma_greeting_holds_whole_name(name: Seq<char>)
    ensures
        greeting_text(Some(name)) == seq!['H', 'e', 'l', 'l', 'o', ',', ' '] + name + seq!['!'],
        greeting_text(None) == seq![
            'H',
            'e',
            'l',
            'l',
            'o',
            ',',
            ' ',
            'w',
            'o',
            'r',
            'l',
            'd',
            '!',
        ],
{
    reveal_strlit("Hello, ");
    reveal_strlit("world");
    reveal_strlit("!");
    assert("Hello, "@ =~= seq!['H', 'e', 'l', 'l', 'o', ',', ' ']);
    assert("!"@ =~= seq!['!']);
    assert(greeting_text(None) =~= seq![
        'H',
        'e',
        'l',
        'l',
        'o',
        ',',
        ' ',
        'w',
        'o',
        'r',
        'l',
        'd',
        '!',
    ]);
}

/// The text the `hello` tool answers with.
pub fn greeting(req: &HelloRequest) -> (r: String)
    ensures
        r@ == greeting_text(
            match req.name {
                Some(n) => Some(n@),
                None => None,
            },
        ),
{
    let mut r = match &req.name {
        Some(n) => joined("Hello, ", n.as_str()),
        None => joined("Hello, ", "world"),
    };
    r.append("!");
    r
}

} // verus!
