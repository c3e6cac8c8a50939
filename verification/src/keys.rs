use vstd::prelude::*;
use vstd::string::{StrSliceExecFns, StringExecFns};

verus! {

broadcast use vstd::seq::group_seq_axioms;

// The composite-key scheme: every stored item carries a partition key
// that is a type discriminator (`document`, `group`, `note`) and a sort
// key made of a type prefix and the entity's raw identity. Encoding and
// decoding are deterministic and mutually inverse (`lemma_key_roundtrip`).

/// The character standing for one decimal digit.
pub open spec fn spec_digit_char(d: int) -> char {
    if d == 0 {
        '0'
    } else if d == 1 {
        '1'
    } else if d == 2 {
        '2'
    } else if d == 3 {
        '3'
    } else if d == 4 {
        '4'
    } else if d == 5 {
        '5'
    } else if d == 6 {
        '6'
    } else if d == 7 {
        '7'
    } else if d == 8 {
        '8'
    } else {
        '9'
    }
}

/// The decimal numeral of a natural number, without leading zeros.
pub open spec fn spec_udec(n: nat) -> Seq<char>
    decreases n,
{
    if n < 10 {
        seq![spec_digit_char(n as int)]
    } else {
        spec_udec(n / 10) + seq![spec_digit_char((n % 10) as int)]
    }
}

/// The decimal numeral of an integer: a `-` sign before the magnitude
/// when negative.
pub open spec fn spec_idec(t: int) -> Seq<char> {
    if t >= 0 {
        spec_udec(t as nat)
    } else {
        seq!['-'] + spec_udec((-t) as nat)
    }
}

fn digit_str(d: u64) -> (r: &'static str)
    requires
        d < 10,
    ensures
        r@ == seq![spec_digit_char(d as int)],
{
    proof {
        reveal_strlit("0");
        reveal_strlit("1");
        reveal_strlit("2");
        reveal_strlit("3");
        reveal_strlit("4");
        reveal_strlit("5");
        reveal_strlit("6");
        reveal_strlit("7");
        reveal_strlit("8");
        reveal_strlit("9");
    }
    let r = match d {
        0 => "0",
        1 => "1",
        2 => "2",
        3 => "3",
        4 => "4",
        5 => "5",
        6 => "6",
        7 => "7",
        8 => "8",
        _ => "9",
    };
    proof {
        assert(r@ =~= seq![spec_digit_char(d as int)]);
    }
    r
}

/// Writes a natural number in decimal.
pub fn u64_to_dec(n: u64) -> (r: String)
    ensures
        r@ == spec_udec(n as nat),
    decreases n,
{
    if n < 10 {
        String::from_str(digit_str(n))
    } else {
        let mut s = u64_to_dec(n / 10);
        s.append(digit_str(n % 10));
        s
    }
}

/// Writes an integer in decimal, with a sign when negative.
pub fn i64_to_dec(t: i64) -> (r: String)
    ensures
        r@ == spec_idec(t as int),
{
    if t >= 0 {
        u64_to_dec(t as u64)
    } else {
        let wide: i128 = -(t as i128);
        assert(0 < wide <= 0x8000_0000_0000_0000i128);
        let m: u64 = wide as u64;
        let mut s = String::from_str("-");
        proof {
            reveal_strlit("-");
            assert(s@ =~= seq!['-']);
        }
        let digits = u64_to_dec(m);
        s.append(digits.as_str());
        s
    }
}

proof fn lemma_digit_char_injective(d1: int, d2: int)
    requires
        0 <= d1 < 10,
        0 <= d2 < 10,
        spec_digit_char(d1) == spec_digit_char(d2),
    ensures
        d1 == d2,
{
}

proof fn lemma_udec_len(n: nat)
    ensures
        spec_udec(n).len() >= 1,
        (n < 10) <==> (spec_udec(n).len() == 1),
    decreases n,
{
    if n >= 10 {
        lemma_udec_len(n / 10);
    }
}

/// Distinct natural numbers have distinct decimal numerals.
pub proof fn lemma_udec_injective(a: nat, b: nat)
    requires
        spec_udec(a) == spec_udec(b),
    ensures
        a == b,
    decreases a + b,
{
    lemma_udec_len(a);
    lemma_udec_len(b);
    if a < 10 && b < 10 {
        assert(spec_udec(a) == seq![spec_digit_char(a as int)]);
        assert(spec_udec(b) == seq![spec_digit_char(b as int)]);
        assert(spec_udec(a)[0] == spec_digit_char(a as int));
        assert(spec_udec(b)[0] == spec_digit_char(b as int));
        lemma_digit_char_injective(a as int, b as int);
    } else if a < 10 {
        assert(spec_udec(b).len() == spec_udec(b / 10).len() + 1);
        lemma_udec_len(b / 10);
    } else if b < 10 {
        assert(spec_udec(a).len() == spec_udec(a / 10).len() + 1);
        lemma_udec_len(a / 10);
    } else {
        let la = spec_udec(a / 10).len() as int;
        let lb = spec_udec(b / 10).len() as int;
        assert(spec_udec(a) == spec_udec(a / 10) + seq![spec_digit_char((a % 10) as int)]);
        assert(spec_udec(b) == spec_udec(b / 10) + seq![spec_digit_char((b % 10) as int)]);
        assert(la == lb);
        assert(spec_udec(a)[la] == spec_digit_char((a % 10) as int));
        assert(spec_udec(b)[lb] == spec_digit_char((b % 10) as int));
        assert(spec_udec(a)[la] == spec_udec(b)[lb]);
        lemma_digit_char_injective((a % 10) as int, (b % 10) as int);
        assert(spec_udec(a / 10) =~= spec_udec(b / 10)) by {
            assert forall|i: int| 0 <= i < la implies #[trigger] spec_udec(a / 10)[i] == spec_udec(
                b / 10,
            )[i] by {
                assert((spec_udec(a / 10) + seq![spec_digit_char((a % 10) as int)])[i]
                    == spec_udec(a / 10)[i]);
                assert((spec_udec(b / 10) + seq![spec_digit_char((b % 10) as int)])[i]
                    == spec_udec(b / 10)[i]);
                assert(spec_udec(a)[i] == spec_udec(b)[i]);
            }
        }
        lemma_udec_injective(a / 10, b / 10);
    }
}

/// Appending to a common front keeps distinct tails distinct.
pub proof fn lemma_append_cancel(p: Seq<char>, a: Seq<char>, b: Seq<char>)
    requires
        p + a == p + b,
    ensures
        a == b,
{
    assert(a =~= b) by {
        assert(p.add(a).len() == p.len() + a.len());
        assert(p.add(b).len() == p.len() + b.len());
        assert((p + a).len() == (p + b).len());
        assert(a.len() == b.len());
        assert forall|i: int| 0 <= i < a.len() implies a[i] == b[i] by {
            assert((p + a)[p.len() + i] == a[i]);
            assert((p + b)[p.len() + i] == b[i]);
            assert((p + a)[p.len() + i] == (p + b)[p.len() + i]);
        }
    }
}

/// `s` begins with `p`.
pub open spec fn starts_with(s: Seq<char>, p: Seq<char>) -> bool {
    p.len() <= s.len() && s.subrange(0, p.len() as int) == p
}

/// The sort-key prefix of documents.
pub open spec fn spec_document_prefix() -> Seq<char> {
    "DOCUMENT#"@
}

/// The sort-key prefix of groups.
pub open spec fn spec_group_prefix() -> Seq<char> {
    "GROUP#"@
}

/// The sort-key prefix of notes.
pub open spec fn spec_note_prefix() -> Seq<char> {
    "NOTE#"@
}

/// The sort key of the document with raw identity `id`.
pub fn document_sort_key(id: &str) -> (r: String)
    ensures
        r@ == spec_document_prefix() + id@,
{
    let mut s = String::from_str("DOCUMENT#");
    s.append(id);
    s
}

/// The sort key of the group with raw identity `id`.
pub fn group_sort_key(id: &str) -> (r: String)
    ensures
        r@ == spec_group_prefix() + id@,
{
    let mut s = String::from_str("GROUP#");
    s.append(id);
    s
}

/// The sort key of the note with raw identity `id`.
pub fn note_sort_key(id: &str) -> (r: String)
    ensures
        r@ == spec_note_prefix() + id@,
{
    let mut s = String::from_str("NOTE#");
    s.append(id);
    s
}

fn strip_prefix(s: &str, p: &str) -> (r: Option<String>)
    ensures
        match r {
            Some(rest) => starts_with(s@, p@) && rest@ == s@.subrange(p@.len() as int, s@.len() as int),
            None => !starts_with(s@, p@),
        },
{
    let n = s.unicode_len();
    let m = p.unicode_len();
    if m > n {
        return None;
    }
    let mut i: usize = 0;
    while i < m
        invariant
            0 <= i <= m,
            m <= n,
            n == s@.len(),
            m == p@.len(),
            forall|j: int| 0 <= j < i ==> s@[j] == p@[j],
        decreases m - i,
    {
        if s.get_char(i) != p.get_char(i) {
            proof {
                assert(s@.subrange(0, m as int)[i as int] != p@[i as int]);
            }
            return None;
        }
        i += 1;
    }
    proof {
        assert(s@.subrange(0, m as int) =~= p@);
    }
    let rest = s.substring_char(m, n);
    Some(String::from_str(rest))
}

/// The raw identity recovered from a sort key, when the key carries one
/// of the three type prefixes.
pub open spec fn spec_decode_sort_key(sk: Seq<char>) -> Option<Seq<char>> {
    if starts_with(sk, spec_document_prefix()) {
        Some(sk.subrange(spec_document_prefix().len() as int, sk.len() as int))
    } else if starts_with(sk, spec_group_prefix()) {
        Some(sk.subrange(spec_group_prefix().len() as int, sk.len() as int))
    } else if starts_with(sk, spec_note_prefix()) {
        Some(sk.subrange(spec_note_prefix().len() as int, sk.len() as int))
    } else {
        None
    }
}

/// Strips the type prefix from a sort key, recovering the raw identity.
pub fn decode_sort_key(sk: &str) -> (r: Option<String>)
    ensures
        match r {
            Some(id) => spec_decode_sort_key(sk@) == Some(id@),
            None => spec_decode_sort_key(sk@) is None,
        },
{
    if let Some(id) = strip_prefix(sk, "DOCUMENT#") {
        return Some(id);
    }
    if let Some(id) = strip_prefix(sk, "GROUP#") {
        return Some(id);
    }
    if let Some(id) = strip_prefix(sk, "NOTE#") {
        return Some(id);
    }
    None
}

proof fn lemma_prefix_of_append(p: Seq<char>, id: Seq<char>)
    ensures
        starts_with(p + id, p),
        (p + id).subrange(p.len() as int, (p + id).len() as int) == id,
{
    assert((p + id).subrange(0, p.len() as int) =~= p);
    assert((p + id).subrange(p.len() as int, (p + id).len() as int) =~= id);
}

/// Decoding undoes encoding: for every raw identity, the sort key built
/// with any of the three type prefixes decodes back to that identity.
pub proof fn lemma_key_roundtrip(id: Seq<char>)
    ensures
        spec_decode_sort_key(spec_document_prefix() + id) == Some(id),
        spec_decode_sort_key(spec_group_prefix() + id) == Some(id),
        spec_decode_sort_key(spec_note_prefix() + id) == Some(id),
{
    reveal_strlit("DOCUMENT#");
    reveal_strlit("GROUP#");
    reveal_strlit("NOTE#");
    lemma_prefix_of_append(spec_document_prefix(), id);
    lemma_prefix_of_append(spec_group_prefix(), id);
    lemma_prefix_of_append(spec_note_prefix(), id);
    assert(!starts_with(spec_group_prefix() + id, spec_document_prefix())) by {
        assert((spec_group_prefix() + id)[0] == 'G');
        if starts_with(spec_group_prefix() + id, spec_document_prefix()) {
            assert((spec_group_prefix() + id).subrange(0, 9)[0] == 'D');
        }
    }
    assert(!starts_with(spec_note_prefix() + id, spec_document_prefix())) by {
        assert((spec_note_prefix() + id)[0] == 'N');
        if starts_with(spec_note_prefix() + id, spec_document_prefix()) {
            assert((spec_note_prefix() + id).subrange(0, 9)[0] == 'D');
        }
    }
    assert(!starts_with(spec_note_prefix() + id, spec_group_prefix())) by {
        assert((spec_note_prefix() + id)[0] == 'N');
        if starts_with(spec_note_prefix() + id, spec_group_prefix()) {
            assert((spec_note_prefix() + id).subrange(0, 6)[0] == 'G');
        }
    }
}

} // verus!
