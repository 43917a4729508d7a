use vstd::prelude::*;

verus! {

/// Relies on `String::push`: appends one character at the end.
#[verifier::external_body]
pub(crate) fn push_char(s: &mut String, c: char)
    ensures
        final(s)@ == old(s)@.push(c),
{
    s.push(c)
}

/// `s` with every dash taken out, the other characters in order.
pub open spec fn strip_dashes(s: Seq<char>) -> Seq<char>
    decreases s.len(),
{
    if s.len() == 0 {
        s
    } else if s.last() == '-' {
        strip_dashes(s.drop_last())
    } else {
        strip_dashes(s.drop_last()).push(s.last())
    }
}

/// The dashed display form: `XXX-XXX-XXX` for nine characters, else `s` itself.
pub open spec fn dashed(s: Seq<char>) -> Seq<char> {
    if s.len() == 9 {
        s.subrange(0, 3) + seq!['-'] + s.subrange(3, 6) + seq!['-'] + s.subrange(6, 9)
    } else {
        s
    }
}

pub open spec fn has_no_dash(s: Seq<char>) -> bool {
    forall|i: int| 0 <= i < s.len() ==> s[i] != '-'
}

/// Stripping a dash-free sequence leaves it as it is.
pub proof fn lemma_strip_no_dash(s: Seq<char>)
    requires
        has_no_dash(s),
    ensures
        strip_dashes(s) == s,
    decreases s.len(),
{
    if s.len() > 0 {
        lemma_strip_no_dash(s.drop_last());
        assert(s.drop_last().push(s.last()) =~= s);
    }
}

/// Stripping distributes over concatenation.
pub proof fn lemma_strip_concat(a: Seq<char>, b: Seq<char>)
    ensures
        strip_dashes(a + b) == strip_dashes(a) + strip_dashes(b),
    decreases b.len(),
{
    if b.len() == 0 {
        assert(a + b =~= a);
        assert(strip_dashes(a) + strip_dashes(b) =~= strip_dashes(a));
    } else {
        lemma_strip_concat(a, b.drop_last());
        assert((a + b).drop_last() =~= a + b.drop_last());
        assert((a + b).last() == b.last());
        if b.last() != '-' {
            assert(strip_dashes(a) + strip_dashes(b.drop_last()).push(b.last()) =~= (
            strip_dashes(a) + strip_dashes(b.drop_last())).push(b.last()));
        }
    }
}

/// Removes every `-` from `formatted`; nothing else is checked or changed.
pub fn remove_formatting(formatted: &str) -> (r: String)
    ensures
        r@ == strip_dashes(formatted@),
{
    let n = formatted.unicode_len();
    let mut r = String::new();
    let mut i: usize = 0;
    while i < n
        invariant
            n == formatted@.len(),
            i <= n,
            r@ == strip_dashes(formatted@.subrange(0, i as int)),
        decreases n - i,
    {
        let c = formatted.get_char(i);
        if c != '-' {
            push_char(&mut r, c);
        }
        assert(formatted@.subrange(0, i as int + 1).drop_last() =~= formatted@.subrange(
            0,
            i as int,
        ));
        i = i + 1;
    }
    assert(formatted@.subrange(0, n as int) =~= formatted@);
    r
}

/// Shows a nine-character token as three groups of three joined by dashes;
/// any other input comes back unchanged.
pub fn format_for_humans(encoded: &str) -> (r: String)
    ensures
        r@ == dashed(encoded@),
{
    let n = encoded.unicode_len();
    if n != 9 {
        return String::from_str(encoded);
    }
    let mut r = String::from_str(encoded.substring_char(0, 3));
    push_char(&mut r, '-');
    r.append(encoded.substring_char(3, 6));
    push_char(&mut r, '-');
    r.append(encoded.substring_char(6, 9));
    assert(r@ =~= dashed(encoded@));
    r
}

} // verus!
