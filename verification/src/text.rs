//! Raw cell text: blank cells, the order of texts, and how many different
//! texts a column holds.

use crate::order::{ascending, sort, Ranked};
use vstd::prelude::*;
use vstd::seq_lib::*;
use vstd::utf8::{encode_utf8, encode_utf8_decode_utf8};

verus! {

/// The code point has the Unicode property White_Space.
pub open spec fn white_space(c: char) -> bool {
    let u = c as u32;
    ||| 0x09 <= u <= 0x0d
    ||| u == 0x20
    ||| u == 0x85
    ||| u == 0xa0
    ||| u == 0x1680
    ||| 0x2000 <= u <= 0x200a
    ||| u == 0x2028
    ||| u == 0x2029
    ||| u == 0x202f
    ||| u == 0x205f
    ||| u == 0x3000
}

/// Nothing is left of the text once white space is trimmed from both ends.
pub open spec fn blank(text: Seq<char>) -> bool {
    forall|i: int| 0 <= i < text.len() ==> white_space(#[trigger] text[i])
}

/// Decides `white_space`.
pub fn is_space(c: char) -> (b: bool)
    ensures
        b == white_space(c),
{
    let u: u32 = c as u32;
    (0x09 <= u && u <= 0x0d) || u == 0x20 || u == 0x85 || u == 0xa0 || u == 0x1680 || (0x2000 <= u
        && u <= 0x200a) || u == 0x2028 || u == 0x2029 || u == 0x202f || u == 0x205f || u == 0x3000
}

/// Decides `blank`.
pub fn is_blank(text: &str) -> (b: bool)
    ensures
        b == blank(text@),
{
    let n: usize = text.unicode_len();
    let mut i: usize = 0;
    while i < n
        invariant
            i <= n,
            n == text@.len(),
            forall|k: int| 0 <= k < i ==> white_space(#[trigger] text@[k]),
        decreases n - i,
    {
        if !is_space(text.get_char(i)) {
            return false;
        }
        i = i + 1;
    }
    true
}

/// Byte strings in dictionary order: a string comes no later than another
/// if it is a prefix of it, or holds the smaller byte where they first differ.
pub open spec fn lex_le(a: Seq<u8>, b: Seq<u8>) -> bool
    decreases a.len(),
{
    if a.len() == 0 {
        true
    } else if b.len() == 0 {
        false
    } else if a[0] != b[0] {
        a[0] < b[0]
    } else {
        lex_le(a.drop_first(), b.drop_first())
    }
}

pub proof fn lemma_lex_connected(a: Seq<u8>, b: Seq<u8>)
    ensures
        lex_le(a, b) || lex_le(b, a),
    decreases a.len(),
{
    if a.len() > 0 && b.len() > 0 && a[0] == b[0] {
        lemma_lex_connected(a.drop_first(), b.drop_first());
    }
}

pub proof fn lemma_lex_transitive(a: Seq<u8>, b: Seq<u8>, c: Seq<u8>)
    requires
        lex_le(a, b),
        lex_le(b, c),
    ensures
        lex_le(a, c),
    decreases a.len(),
{
    if a.len() > 0 && b.len() > 0 && c.len() > 0 && a[0] == b[0] && b[0] == c[0] {
        lemma_lex_transitive(a.drop_first(), b.drop_first(), c.drop_first());
    }
}

pub proof fn lemma_lex_antisymmetric(a: Seq<u8>, b: Seq<u8>)
    requires
        lex_le(a, b),
        lex_le(b, a),
    ensures
        a == b,
    decreases a.len(),
{
    if a.len() > 0 && b.len() > 0 {
        lemma_lex_antisymmetric(a.drop_first(), b.drop_first());
        assert(a =~= seq![a[0]] + a.drop_first());
        assert(b =~= seq![b[0]] + b.drop_first());
    } else {
        assert(a =~= b);
    }
}

/// Where two strings agree on their first `i` bytes, the rest decides.
proof fn lemma_lex_skip_common(a: Seq<u8>, b: Seq<u8>, i: int)
    requires
        0 <= i <= a.len(),
        i <= b.len(),
        forall|k: int| 0 <= k < i ==> a[k] == b[k],
    ensures
        lex_le(a, b) == lex_le(a.skip(i), b.skip(i)),
    decreases i,
{
    if i == 0 {
        assert(a.skip(0) =~= a);
        assert(b.skip(0) =~= b);
    } else {
        assert(a[0] == b[0]);
        assert forall|k: int| 0 <= k < i - 1 implies a.drop_first()[k] == b.drop_first()[k] by {
            assert(a[k + 1] == b[k + 1]);
        }
        lemma_lex_skip_common(a.drop_first(), b.drop_first(), i - 1);
        assert(a.drop_first().skip(i - 1) =~= a.skip(i));
        assert(b.drop_first().skip(i - 1) =~= b.skip(i));
    }
}

/// A borrowed cell text, ordered by the bytes of its UTF-8 encoding.
#[derive(Clone, Copy)]
pub struct TextRef<'a> {
    pub text: &'a str,
}

impl<'a> TextRef<'a> {
    /// The bytes by which texts are ordered.
    pub open spec fn bytes(self) -> Seq<u8> {
        encode_utf8(self.text@)
    }
}

impl<'a> Ranked for TextRef<'a> {
    open spec fn comes_before(self, other: TextRef<'a>) -> bool {
        lex_le(self.bytes(), other.bytes())
    }

    proof fn lemma_connected(a: TextRef<'a>, b: TextRef<'a>) {
        lemma_lex_connected(a.bytes(), b.bytes());
    }

    proof fn lemma_transitive(a: TextRef<'a>, b: TextRef<'a>, c: TextRef<'a>) {
        lemma_lex_transitive(a.bytes(), b.bytes(), c.bytes());
    }

    fn no_later_than(&self, other: &TextRef<'a>) -> (r: bool) {
        let a: &[u8] = self.text.as_bytes();
        let b: &[u8] = other.text.as_bytes();
        let mut i: usize = 0;
        while i < a.len() && i < b.len()
            invariant
                i <= a.len(),
                i <= b.len(),
                a@ == self.bytes(),
                b@ == other.bytes(),
                forall|k: int| 0 <= k < i ==> a@[k] == b@[k],
            decreases a.len() - i,
        {
            if a[i] != b[i] {
                proof {
                    lemma_lex_skip_common(a@, b@, i as int);
                }
                return a[i] < b[i];
            }
            i = i + 1;
        }
        proof {
            lemma_lex_skip_common(a@, b@, i as int);
        }
        i == a.len()
    }
}

/// Texts that are each no later than the other are the same text.
pub proof fn lemma_same_text(a: TextRef, b: TextRef)
    requires
        a.comes_before(b),
        b.comes_before(a),
    ensures
        a.text@ == b.text@,
{
    lemma_lex_antisymmetric(a.bytes(), b.bytes());
    encode_utf8_decode_utf8(a.text@);
    encode_utf8_decode_utf8(b.text@);
}

/// The texts of a sequence of strings.
pub open spec fn texts_of(raw: Seq<String>) -> Seq<Seq<char>> {
    Seq::new(raw.len(), |i: int| raw[i]@)
}

/// The texts that borrowed cells point to.
pub open spec fn texts_of_refs(refs: Seq<TextRef>) -> Seq<Seq<char>> {
    Seq::new(refs.len(), |i: int| refs[i].text@)
}

/// How many different texts a column holds, the empty text not counted.
pub open spec fn distinct_nonempty(texts: Seq<Seq<char>>) -> nat {
    texts.to_set().remove(Seq::<char>::empty()).len()
}

/// Sequences with the same elements point to the same texts.
proof fn lemma_same_texts(a: Seq<TextRef>, b: Seq<TextRef>)
    requires
        a.to_multiset() == b.to_multiset(),
    ensures
        texts_of_refs(a).to_set() == texts_of_refs(b).to_set(),
{
    broadcast use group_to_multiset_ensures;

    let ta = texts_of_refs(a);
    let tb = texts_of_refs(b);
    assert forall|t: Seq<char>| ta.contains(t) implies tb.contains(t) by {
        let i = choose|i: int| 0 <= i < ta.len() && ta[i] == t;
        assert(a.contains(a[i]));
        assert(b.to_multiset().count(a[i]) > 0);
        assert(b.contains(a[i]));
        let j = choose|j: int| 0 <= j < b.len() && b[j] == a[i];
        assert(tb[j] == t);
    }
    assert forall|t: Seq<char>| tb.contains(t) implies ta.contains(t) by {
        let i = choose|i: int| 0 <= i < tb.len() && tb[i] == t;
        assert(b.contains(b[i]));
        assert(a.to_multiset().count(b[i]) > 0);
        assert(a.contains(b[i]));
        let j = choose|j: int| 0 <= j < a.len() && a[j] == b[i];
        assert(ta[j] == t);
    }
    assert(ta.to_set() =~= tb.to_set());
}

/// What one more sorted cell adds to the different texts seen so far.
proof fn lemma_distinct_step(sorted: Seq<TextRef>, i: int)
    requires
        ascending(sorted),
        0 <= i < sorted.len(),
    ensures
        distinct_nonempty(texts_of_refs(sorted.take(i + 1))) == distinct_nonempty(
            texts_of_refs(sorted.take(i)),
        ) + (if sorted[i].text@.len() > 0 && (i == 0 || !sorted[i].comes_before(sorted[i - 1])) {
            1nat
        } else {
            0nat
        }),
{
    let before = texts_of_refs(sorted.take(i));
    let after = texts_of_refs(sorted.take(i + 1));
    let t = sorted[i].text@;
    let empty = Seq::<char>::empty();
    seq_to_set_is_finite(before);
    seq_to_set_is_finite(after);
    assert(after =~= before.push(t));
    assert(after.to_set() =~= before.to_set().insert(t)) by {
        assert forall|x: Seq<char>| after.contains(x) <==> before.contains(x) || x == t by {
            if before.contains(x) {
                let k = choose|k: int| 0 <= k < before.len() && before[k] == x;
                assert(after[k] == x);
            }
            if x == t {
                assert(after[i] == x);
            }
            if after.contains(x) {
                let k = choose|k: int| 0 <= k < after.len() && after[k] == x;
                if k < i {
                    assert(before[k] == x);
                }
            }
        }
    }
    if t.len() == 0 {
        assert(t =~= empty);
        assert(after.to_set().remove(empty) =~= before.to_set().remove(empty));
    } else if i > 0 && sorted[i].comes_before(sorted[i - 1]) {
        assert(sorted[i - 1].comes_before(sorted[i]));
        lemma_same_text(sorted[i - 1], sorted[i]);
        assert(before[i - 1] == t);
        assert(before.contains(t));
        assert(after.to_set() =~= before.to_set());
    } else {
        if before.contains(t) {
            let k = choose|k: int| 0 <= k < before.len() && before[k] == t;
            assert(sorted[k].text@ == t);
            assert(sorted[k].bytes() == sorted[i].bytes());
            lemma_lex_connected(sorted[i].bytes(), sorted[i].bytes());
            assert(sorted[i].comes_before(sorted[k]));
            if k < i - 1 {
                assert(sorted[k].comes_before(sorted[i - 1]));
                TextRef::lemma_transitive(sorted[i], sorted[k], sorted[i - 1]);
            }
            assert(false);
        }
        assert(after.to_set().remove(empty) =~= before.to_set().remove(empty).insert(t));
    }
}

/// Counts the different texts of a column, the empty text left out: sorts
/// the cells, then counts the places where a text first appears.
pub fn count_distinct(raw: &Vec<String>) -> (count: usize)
    ensures
        count == distinct_nonempty(texts_of(raw@)),
{
    let mut refs: Vec<TextRef> = Vec::new();
    let mut k: usize = 0;
    while k < raw.len()
        invariant
            k <= raw.len(),
            refs.len() == k,
            forall|j: int| 0 <= j < k ==> (#[trigger] refs@[j]).text@ == raw@[j]@,
        decreases raw.len() - k,
    {
        refs.push(TextRef { text: raw[k].as_str() });
        k = k + 1;
    }
    assert(texts_of_refs(refs@) =~= texts_of(raw@));
    let sorted = sort(&refs);
    proof {
        lemma_same_texts(sorted@, refs@);
    }
    let mut count: usize = 0;
    let mut i: usize = 0;
    assert(texts_of_refs(sorted@.take(0)).to_set().remove(Seq::<char>::empty()) =~= Set::<
        Seq<char>,
    >::empty());
    while i < sorted.len()
        invariant
            i <= sorted.len(),
            count <= i,
            ascending(sorted@),
            count == distinct_nonempty(texts_of_refs(sorted@.take(i as int))),
        decreases sorted.len() - i,
    {
        proof {
            lemma_distinct_step(sorted@, i as int);
        }
        let current: TextRef = sorted[i];
        if !current.text.is_empty() {
            let first: bool = i == 0 || !current.no_later_than(&sorted[i - 1]);
            if first {
                count = count + 1;
            }
        }
        i = i + 1;
    }
    assert(sorted@.take(sorted.len() as int) =~= sorted@);
    count
}

} // verus!
