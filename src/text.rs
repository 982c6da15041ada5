use vstd::prelude::*;

verus! {

/// Whether a text is wrapped in a pair of parentheses.
pub open spec fn is_parenthesized(s: Seq<char>) -> bool {
    s.len() >= 1 && s[0] == '(' && s[s.len() - 1] == ')'
}

/// The text inside an outer pair of parentheses, as in "(Card)", or `None`
/// when the text does not start with '(' and end with ')'.
pub fn extract_inside_parentheses(s: &str) -> (r: Option<String>)
    ensures
        r is Some <==> is_parenthesized(s@),
        r matches Some(inner) ==> inner@ == s@.subrange(1, s@.len() - 1),
{
    let n = s.unicode_len();
    if n >= 1 && s.get_char(0) == '(' && s.get_char(n - 1) == ')' {
        Some(String::from_str(s.substring_char(1, n - 1)))
    } else {
        None
    }
}

} // verus!
