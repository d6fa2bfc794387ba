//! Constant-identifier derivation: an icon's human name becomes an
//! upper-snake-case identifier, and a leading digit is guarded with an
//! underscore so the identifier never starts with a digit.
use vstd::prelude::*;
use vstd::string::StringExecFns;

use crate::scan::is_ascii_digit;
use crate::text::chars_of;

verus! {

/// What `heck`'s shouty-snake-case conversion returns; it depends on the
/// input characters alone.
pub uninterp spec fn shouty_snake_of(s: Seq<char>) -> Seq<char>;

/// Relies on `heck::ToShoutySnakeCase::to_shouty_snake_case` for `str`:
/// upper-cases the words of the name and joins them with underscores,
/// from the input characters alone.
#[verifier::external_body]
fn to_shouty_snake(s: &str) -> (r: String)
    ensures
        r@ == shouty_snake_of(s@),
{
    heck::ToShoutySnakeCase::to_shouty_snake_case(s)
}

/// An upper-snake-case name guarded against a leading digit.
pub open spec fn guard_leading_digit(s: Seq<char>) -> Seq<char> {
    if s.len() > 0 && is_ascii_digit(s[0]) {
        "_"@ + s
    } else {
        s
    }
}

/// The constant identifier of an icon name: its shouty-snake-case form, with
/// an underscore prefixed when that form starts with a digit.
pub open spec fn ident_of(name: Seq<char>) -> Seq<char> {
    guard_leading_digit(shouty_snake_of(name))
}

/// Derives the constant identifier of an icon name.
pub fn const_name(name: &String) -> (r: String)
    ensures
        r@ == ident_of(name@),
{
    let sh = to_shouty_snake(name.as_str());
    let cs = chars_of(sh.as_str());
    if cs.len() > 0 {
        let v = cs[0] as u32;
        if 48 <= v && v <= 57 {
            let mut out: String = "_".to_owned();
            out.append(sh.as_str());
            return out;
        }
    }
    sh
}

/// An identifier never starts with a digit: a digit-leading name gets an
/// underscore in front, and any other name was not digit-leading to begin
/// with.
pub proof fn lemma_ident_not_digit_leading(name: Seq<char>)
    ensures
        ident_of(name).len() > 0 ==> !is_ascii_digit(ident_of(name)[0]),
{
    reveal_strlit("_");
    let s = shouty_snake_of(name);
    if s.len() > 0 && is_ascii_digit(s[0]) {
        assert(ident_of(name)[0] == '_');
    }
}

} // verus!
