use vstd::prelude::*;

verus! {

/// What is shown for a panic whose payload is no string.
pub open spec fn unknown_panic() -> Seq<char> {
    "<non-string panic payload>"@
}

/// What is shown for a panic whose payload is a string literal, an owned
/// string, or neither.
pub open spec fn explanation(literal: Option<&str>, owned: Option<&str>) -> Seq<char> {
    match (literal, owned) {
        (Some(text), _) => text@,
        (None, Some(text)) => text@,
        (None, None) => unknown_panic(),
    }
}

/// The message of a user closure that panicked: the text of its payload,
/// whether that is a string literal or an owned string.
pub fn panic_message<'a>(literal: Option<&'a str>, owned: Option<&'a str>) -> (message: &'a str)
    ensures
        message@ == explanation(literal, owned),
        message@ == match (literal, owned) {
            (Some(text), _) => text@,
            (None, Some(text)) => text@,
            (None, None) => unknown_panic(),
        },
{
    match literal {
        Some(text) => text,
        None => match owned {
            Some(text) => text,
            None => "<non-string panic payload>",
        },
    }
}

/// A panic is explained by its own text wherever it has one, and by a fixed
/// text only where it has none.
pub proof fn law_panics_are_explained_by_their_text(literal: Option<&str>, owned: Option<&str>)
    ensures
        literal matches Some(text) ==> explanation(literal, owned) == text@,
        literal is None ==> (owned matches Some(text) ==> explanation(literal, owned) == text@),
        literal is None && owned is None ==> explanation(literal, owned)
            == "<non-string panic payload>"@,
{
}

} // verus!
