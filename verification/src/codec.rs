use vstd::prelude::*;

verus! {

// ---------------------------------------------------------------------------
// Percent-encoding of wire arguments.
//
// Every path argument on a protocol line is percent-encoded, so that a space,
// a newline or a '%' never appears unescaped inside an argument.
// ---------------------------------------------------------------------------

/// Bytes that percent-encoding leaves as they are: ASCII alphanumerics and
/// '-', '.', '_', '~'.
pub open spec fn is_unreserved_byte(b: u8) -> bool {
    (48 <= b && b <= 57) || (65 <= b && b <= 90) || (97 <= b && b <= 122) || b == 45 || b == 46
        || b == 95 || b == 126
}

pub open spec fn is_hex_digit(b: u8) -> bool {
    (48 <= b && b <= 57) || (65 <= b && b <= 70) || (97 <= b && b <= 102)
}

/// Numeric value of one hex digit (either case).
pub open spec fn hex_value(b: u8) -> u8
    recommends
        is_hex_digit(b),
{
    if 48 <= b && b <= 57 {
        (b - 48) as u8
    } else if 65 <= b && b <= 70 {
        (b - 55) as u8
    } else {
        (b - 87) as u8
    }
}

/// Upper-case hex digit for a value below 16.
pub open spec fn hex_digit(v: u8) -> u8
    recommends
        v < 16,
{
    if v < 10 {
        (48 + v) as u8
    } else {
        (55 + v) as u8
    }
}

/// Percent-encoding of a byte sequence: an unreserved byte stands as itself,
/// every other byte becomes '%' followed by its two upper-case hex digits.
pub open spec fn percent_encoded(s: Seq<u8>) -> Seq<u8>
    decreases s.len(),
{
    if s.len() == 0 {
        Seq::empty()
    } else if is_unreserved_byte(s[0]) {
        seq![s[0]] + percent_encoded(s.drop_first())
    } else {
        seq![37u8, hex_digit((s[0] / 16) as u8), hex_digit((s[0] % 16) as u8)]
            + percent_encoded(s.drop_first())
    }
}

/// A sequence is a well-formed encoding when every '%' in it is followed by
/// two hex digits.
pub open spec fn well_formed_encoding(s: Seq<u8>) -> bool
    decreases s.len(),
{
    if s.len() == 0 {
        true
    } else if s[0] == 37 {
        s.len() >= 3 && is_hex_digit(s[1]) && is_hex_digit(s[2]) && well_formed_encoding(s.skip(3))
    } else {
        well_formed_encoding(s.drop_first())
    }
}

/// The bytes a well-formed percent-encoded sequence stands for.
pub open spec fn percent_decoded(s: Seq<u8>) -> Seq<u8>
    recommends
        well_formed_encoding(s),
    decreases s.len(),
{
    if s.len() == 0 {
        Seq::empty()
    } else if s[0] == 37 && s.len() >= 3 {
        seq![((hex_value(s[1]) as int) * 16 + (hex_value(s[2]) as int)) as u8]
            + percent_decoded(s.skip(3))
    } else {
        seq![s[0]] + percent_decoded(s.drop_first())
    }
}

/// Relies on urlencoding::encode_binary: it percent-encodes every byte except
/// ASCII alphanumerics and '-', '.', '_', '~', writing upper-case hex digits.
#[verifier::external_body]
pub(crate) fn percent_encode(data: &Vec<u8>) -> (r: Vec<u8>)
    ensures
        r@ == percent_encoded(data@),
{
    urlencoding::encode_binary(data).into_owned().into_bytes()
}

/// Relies on urlencoding::decode_binary: it replaces each '%' followed by two
/// hex digits with the byte they spell and keeps every other byte; on input
/// where every '%' is so followed, nothing else is changed.
#[verifier::external_body]
fn percent_decode_raw(data: &Vec<u8>) -> (r: Vec<u8>)
    requires
        well_formed_encoding(data@),
    ensures
        r@ == percent_decoded(data@),
{
    urlencoding::decode_binary(data).into_owned()
}

fn byte_is_hex_digit(b: u8) -> (r: bool)
    ensures
        r == is_hex_digit(b),
{
    (48 <= b && b <= 57) || (65 <= b && b <= 70) || (97 <= b && b <= 102)
}

/// Checks that every '%' is followed by two hex digits, so that decoding is
/// defined on the whole sequence.
pub fn is_well_formed_encoding(data: &Vec<u8>) -> (r: bool)
    ensures
        r == well_formed_encoding(data@),
{
    let n = data.len();
    let mut i: usize = 0;
    proof {
        assert(data@.skip(0) =~= data@);
    }
    while i < n
        invariant
            n == data@.len(),
            i <= n,
            well_formed_encoding(data@) == well_formed_encoding(data@.skip(i as int)),
        decreases n - i,
    {
        if data[i] == 37 {
            if n - i < 3 {
                return false;
            }
            if !byte_is_hex_digit(data[i + 1]) || !byte_is_hex_digit(data[i + 2]) {
                return false;
            }
            proof {
                assert(data@.skip(i as int).skip(3) =~= data@.skip(i as int + 3));
            }
            i = i + 3;
        } else {
            proof {
                assert(data@.skip(i as int).drop_first() =~= data@.skip(i as int + 1));
            }
            i = i + 1;
        }
    }
    proof {
        assert(data@.skip(n as int) =~= Seq::<u8>::empty());
    }
    true
}

/// Decodes a percent-encoded argument, rejecting a malformed encoding.
pub fn percent_decode_checked(data: &Vec<u8>) -> (r: Option<Vec<u8>>)
    ensures
        well_formed_encoding(data@) ==> (r matches Some(d) && d@ == percent_decoded(data@)),
        !well_formed_encoding(data@) ==> r is None,
{
    if is_well_formed_encoding(data) {
        Some(percent_decode_raw(data))
    } else {
        None
    }
}

/// An encoded argument never holds a space, a newline or an unescaped '%'
/// other than at the start of a hex escape; in particular it is safe to place
/// between single spaces on a single line.
pub proof fn lemma_percent_encoded_wire_safe(s: Seq<u8>)
    ensures
        forall|i: int|
            0 <= i < percent_encoded(s).len() ==> percent_encoded(s)[i] != 32
                && percent_encoded(s)[i] != 10,
    decreases s.len(),
{
    if s.len() > 0 {
        lemma_percent_encoded_wire_safe(s.drop_first());
        let e = percent_encoded(s);
        let t = percent_encoded(s.drop_first());
        assert forall|i: int| 0 <= i < e.len() implies e[i] != 32 && e[i] != 10 by {
            if is_unreserved_byte(s[0]) {
                if i == 0 {
                    assert(e[i] == s[0]);
                } else {
                    assert(e[i] == t[i - 1]);
                }
            } else {
                if i == 0 {
                    assert(e[i] == 37);
                } else if i == 1 {
                    assert(e[i] == hex_digit((s[0] / 16) as u8));
                    assert(s[0] / 16 < 16);
                } else if i == 2 {
                    assert(e[i] == hex_digit((s[0] % 16) as u8));
                    assert(s[0] % 16 < 16);
                } else {
                    assert(e[i] == t[i - 3]);
                }
            }
        }
    }
}

/// Decoding undoes encoding: the encoded form is well formed and stands for
/// exactly the original bytes.
pub proof fn lemma_percent_round_trip(s: Seq<u8>)
    ensures
        well_formed_encoding(percent_encoded(s)),
        percent_decoded(percent_encoded(s)) == s,
    decreases s.len(),
{
    if s.len() == 0 {
        assert(percent_decoded(percent_encoded(s)) =~= s);
    } else {
        let h = s[0];
        let rest = s.drop_first();
        lemma_percent_round_trip(rest);
        let e = percent_encoded(s);
        if is_unreserved_byte(h) {
            assert(e.drop_first() =~= percent_encoded(rest));
            assert(percent_decoded(e) =~= seq![h] + percent_decoded(percent_encoded(rest)));
            assert(percent_decoded(e) =~= s);
        } else {
            assert(e.skip(3) =~= percent_encoded(rest));
            assert(hex_value(hex_digit((h / 16) as u8)) == h / 16);
            assert(hex_value(hex_digit((h % 16) as u8)) == h % 16);
            assert((hex_value(hex_digit((h / 16) as u8)) as int) * 16
                + (hex_value(hex_digit((h % 16) as u8)) as int) == h);
            assert(percent_decoded(e) =~= seq![h] + percent_decoded(percent_encoded(rest)));
            assert(percent_decoded(e) =~= s);
        }
    }
}

// ---------------------------------------------------------------------------
// Line framing: newline-terminated lines, '\n' is the sole separator.
// ---------------------------------------------------------------------------

/// The lines of a byte stream, split at each newline; a final fragment
/// without a terminating newline still counts as a line, and a terminating
/// newline at the very end does not open an empty extra line.
pub open spec fn lines_of(s: Seq<u8>) -> Seq<Seq<u8>>
    decreases s.len(),
{
    if s.len() == 0 {
        Seq::empty()
    } else if s[0] == 10 {
        seq![Seq::<u8>::empty()] + lines_of(s.drop_first())
    } else {
        let rest = lines_of(s.drop_first());
        if rest.len() == 0 {
            seq![seq![s[0]]]
        } else {
            seq![seq![s[0]] + rest[0]] + rest.drop_first()
        }
    }
}

/// When a stream holds no newline, it is one single line.
pub proof fn lemma_lines_of_no_newline(s: Seq<u8>)
    requires
        s.len() > 0,
        forall|i: int| 0 <= i < s.len() ==> s[i] != 10,
    ensures
        lines_of(s) == seq![s],
    decreases s.len(),
{
    if s.len() == 1 {
        assert(s.drop_first().len() == 0);
        assert(lines_of(s.drop_first()) =~~= Seq::<Seq<u8>>::empty());
        assert(lines_of(s) =~~= seq![seq![s[0]]]);
        assert(seq![s[0]] =~= s);
        assert(lines_of(s) =~~= seq![s]);
    } else {
        lemma_lines_of_no_newline(s.drop_first());
        let rest = lines_of(s.drop_first());
        assert(rest == seq![s.drop_first()]);
        assert(rest.len() == 1);
        assert(rest.drop_first() =~~= Seq::<Seq<u8>>::empty());
        assert(lines_of(s) =~~= seq![seq![s[0]] + s.drop_first()]);
        assert(seq![s[0]] + s.drop_first() =~= s);
        assert(lines_of(s) =~~= seq![s]);
    }
}

/// When the first newline of a stream stands at `j`, the first line is what
/// stands before it and the remaining lines are those of what follows it.
pub proof fn lemma_lines_of_split(s: Seq<u8>, j: int)
    requires
        0 <= j < s.len(),
        s[j] == 10,
        forall|i: int| 0 <= i < j ==> s[i] != 10,
    ensures
        lines_of(s) == seq![s.subrange(0, j)] + lines_of(s.skip(j + 1)),
    decreases s.len(),
{
    if j == 0 {
        assert(lines_of(s) =~~= seq![s.subrange(0, 0)] + lines_of(s.skip(1)));
    } else {
        lemma_lines_of_split(s.drop_first(), j - 1);
        let rest = lines_of(s.drop_first());
        assert(rest == seq![s.drop_first().subrange(0, j - 1)] + lines_of(s.drop_first().skip(j)));
        assert(rest.len() > 0);
        assert(rest[0] == s.drop_first().subrange(0, j - 1));
        assert(seq![s[0]] + s.drop_first().subrange(0, j - 1) =~= s.subrange(0, j));
        assert(rest.drop_first() =~= lines_of(s.drop_first().skip(j)));
        assert(s.drop_first().skip(j) =~= s.skip(j + 1));
        assert(lines_of(s) =~~= seq![s.subrange(0, j)] + lines_of(s.skip(j + 1)));
    }
}

/// Copies a range of a byte vector.
pub fn copy_range(v: &Vec<u8>, from: usize, to: usize) -> (r: Vec<u8>)
    requires
        from <= to <= v@.len(),
    ensures
        r@ == v@.subrange(from as int, to as int),
{
    let mut r: Vec<u8> = Vec::new();
    let mut i: usize = from;
    while i < to
        invariant
            from <= i <= to <= v@.len(),
            r@ == v@.subrange(from as int, i as int),
        decreases to - i,
    {
        r.push(v[i]);
        proof {
            assert(r@ =~= v@.subrange(from as int, i as int + 1));
        }
        i = i + 1;
    }
    r
}

/// Splits a byte stream into its lines.
pub fn split_lines(input: &Vec<u8>) -> (r: Vec<Vec<u8>>)
    ensures
        r.deep_view() == lines_of(input@),
{
    let n = input.len();
    let mut r: Vec<Vec<u8>> = Vec::new();
    let mut i: usize = 0;
    proof {
        assert(input@.skip(0) =~= input@);
        assert(r.deep_view() =~~= Seq::<Seq<u8>>::empty());
        assert(lines_of(input@) =~~= r.deep_view() + lines_of(input@.skip(0)));
    }
    while i < n
        invariant
            n == input@.len(),
            i <= n,
            lines_of(input@) == r.deep_view() + lines_of(input@.skip(i as int)),
        decreases n - i,
    {
        let ghost seen = r.deep_view();
        // find the next newline, or the end of the stream
        let mut j: usize = i;
        while j < n && input[j] != 10
            invariant
                i <= j <= n,
                n == input@.len(),
                forall|k: int| i <= k < j ==> input@[k] != 10,
            decreases n - j,
        {
            j = j + 1;
        }
        let ghost lv = input@.subrange(i as int, j as int);
        let line = copy_range(input, i, j);
        r.push(line);
        proof {
            assert(r.deep_view() =~~= seen.push(lv));
            let suf = input@.skip(i as int);
            if j < n {
                lemma_lines_of_split(suf, j - i);
                assert(suf.subrange(0, j - i) =~= lv);
                assert(suf.skip(j - i + 1) =~= input@.skip(j as int + 1));
                assert(lines_of(suf) =~~= seq![lv] + lines_of(input@.skip(j as int + 1)));
                assert(seen + (seq![lv] + lines_of(input@.skip(j as int + 1))) =~~= seen.push(lv)
                    + lines_of(input@.skip(j as int + 1)));
                assert(lines_of(input@) =~~= r.deep_view() + lines_of(input@.skip(j as int + 1)));
            } else {
                lemma_lines_of_no_newline(suf);
                assert(suf =~= lv);
                assert(input@.skip(n as int) =~= Seq::<u8>::empty());
                assert(lines_of(input@.skip(n as int)) =~~= Seq::<Seq<u8>>::empty());
                assert(seen + seq![lv] =~~= seen.push(lv) + lines_of(input@.skip(n as int)));
                assert(lines_of(input@) =~~= r.deep_view() + lines_of(input@.skip(n as int)));
            }
        }
        if j < n {
            i = j + 1;
        } else {
            i = n;
        }
    }
    proof {
        assert(input@.skip(n as int) =~= Seq::<u8>::empty());
        assert(lines_of(input@) =~= r.deep_view());
    }
    r
}

} // verus!
