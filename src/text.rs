use vstd::prelude::*;
use vstd::string::*;

verus! {

/// The texts of a list of strings
pub open spec fn strings_view(vs: Seq<String>) -> Seq<Seq<char>> {
    vs.map_values(|s: String| s@)
}

/// Copies the strings at positions `from..to` of a list
pub fn copy_range(vs: &[String], from: usize, to: usize) -> (r: Vec<String>)
    requires
        from <= to <= vs@.len(),
    ensures
        strings_view(r@) == strings_view(vs@).subrange(from as int, to as int),
{
    let mut out: Vec<String> = Vec::new();
    let mut i: usize = from;
    while i < to
        invariant
            from <= i <= to <= vs@.len(),
            strings_view(out@) == strings_view(vs@).subrange(from as int, i as int),
        decreases to - i,
    {
        let ghost prev = out@;
        out.push(vs[i].clone());
        assert(out@ == prev.push(vs@[i as int]));
        assert(strings_view(prev) =~= strings_view(vs@).subrange(from as int, i as int));
        assert(strings_view(out@) =~= strings_view(prev).push(vs@[i as int]@));
        assert(strings_view(out@) =~= strings_view(vs@).subrange(from as int, i + 1));
        i = i + 1;
    }
    out
}

/// Copies every string of a list
pub fn clone_all(vs: &[String]) -> (r: Vec<String>)
    ensures
        strings_view(r@) == strings_view(vs@),
{
    let r = copy_range(vs, 0, vs.len());
    assert(strings_view(vs@).subrange(0, vs@.len() as int) =~= strings_view(vs@));
    r
}

/// Relies on `String::push`: the character is appended at the end.
#[verifier::external_body]
pub(crate) fn push_char(s: &mut String, c: char)
    ensures
        final(s)@ == old(s)@.push(c),
{
    s.push(c)
}

/// Copies a string slice into an owned string
pub fn owned(s: &str) -> (r: String)
    ensures
        r@ == s@,
{
    String::from_str(s)
}

/// Compares two strings character by character
pub fn str_eq(a: &str, b: &str) -> (r: bool)
    ensures
        r == (a@ == b@),
{
    let n = a.unicode_len();
    if n != b.unicode_len() {
        return false;
    }
    let mut i: usize = 0;
    while i < n
        invariant
            n == a@.len(),
            n == b@.len(),
            i <= n,
            a@.subrange(0, i as int) == b@.subrange(0, i as int),
        decreases n - i,
    {
        if a.get_char(i) != b.get_char(i) {
            return false;
        }
        assert(a@.subrange(0, i + 1) == a@.subrange(0, i as int).push(a@[i as int]));
        assert(b@.subrange(0, i + 1) == b@.subrange(0, i as int).push(b@[i as int]));
        i = i + 1;
    }
    assert(a@ == a@.subrange(0, n as int));
    assert(b@ == b@.subrange(0, n as int));
    true
}

} // verus!
