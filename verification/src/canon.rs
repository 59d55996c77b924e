use vstd::prelude::*;
use vstd::relations::sorted_by;
use vstd::relations::total_ordering;
use vstd::seq_lib::lemma_multiset_commutative;
use vstd::seq_lib::lemma_sorted_unique;

use vstd::string::StringExecFns;

use crate::board::Matrix;
use crate::board::dv;
use crate::model::BoardView;
use crate::model::NUM_RANKS;
use crate::model::card_seq_ok;

verus! {

/// The byte that ends every pile rendering inside a canonical key.
pub const PILE_END: u8 = 84;

/// A card value rendered as its decimal digit byte.
pub open spec fn digit_byte(c: u8) -> u8 {
    (c + 48) as u8
}

/// A pile's cards as digit bytes, bottom-to-top.
pub open spec fn digits(s: Seq<u8>) -> Seq<u8> {
    s.map_values(|c: u8| digit_byte(c))
}

/// One pile rendered for the canonical key: its cards bottom-to-top as digit
/// bytes, closed by the terminator byte.
pub open spec fn render_pile(s: Seq<u8>) -> Seq<u8> {
    digits(s).push(PILE_END)
}

/// The renderings of a list of piles, in pile order.
pub open spec fn renderings(xs: Seq<Seq<u8>>) -> Seq<Seq<u8>> {
    xs.map_values(|s: Seq<u8>| render_pile(s))
}

/// Lexicographic order on byte strings.
pub open spec fn lex_le(a: Seq<u8>, b: Seq<u8>) -> bool
    decreases a.len(),
{
    if a.len() == 0 {
        true
    } else if b.len() == 0 {
        false
    } else if a[0] < b[0] {
        true
    } else if a[0] > b[0] {
        false
    } else {
        lex_le(a.skip(1), b.skip(1))
    }
}

/// The lexicographic order as a relation value.
pub open spec fn lex_leq() -> spec_fn(Seq<u8>, Seq<u8>) -> bool {
    |a: Seq<u8>, b: Seq<u8>| lex_le(a, b)
}

proof fn lemma_lex_refl(a: Seq<u8>)
    ensures
        lex_le(a, a),
    decreases a.len(),
{
    if a.len() > 0 {
        lemma_lex_refl(a.skip(1));
    }
}

proof fn lemma_lex_antisym(a: Seq<u8>, b: Seq<u8>)
    requires
        lex_le(a, b),
        lex_le(b, a),
    ensures
        a == b,
    decreases a.len(),
{
    if a.len() == 0 {
        assert(b.len() == 0);
        assert(a =~= b);
    } else {
        assert(b.len() > 0);
        assert(a[0] == b[0]);
        lemma_lex_antisym(a.skip(1), b.skip(1));
        assert(a =~= b) by {
            assert(a.skip(1) =~= b.skip(1));
            assert(a.skip(1).len() == a.len() - 1);
            assert(b.skip(1).len() == b.len() - 1);
            assert(a.len() == b.len());
            assert(forall|i: int|
                1 <= i < a.len() ==> #[trigger] a[i] == a.skip(1)[i - 1] && b[i] == b.skip(1)[i
                    - 1]);
        }
    }
}

proof fn lemma_lex_trans(a: Seq<u8>, b: Seq<u8>, c: Seq<u8>)
    requires
        lex_le(a, b),
        lex_le(b, c),
    ensures
        lex_le(a, c),
    decreases a.len(),
{
    if a.len() > 0 && b.len() > 0 && c.len() > 0 {
        if a[0] == b[0] && b[0] == c[0] {
            lemma_lex_trans(a.skip(1), b.skip(1), c.skip(1));
        }
    }
}

proof fn lemma_lex_connected(a: Seq<u8>, b: Seq<u8>)
    ensures
        lex_le(a, b) || lex_le(b, a),
    decreases a.len(),
{
    if a.len() > 0 && b.len() > 0 && a[0] == b[0] {
        lemma_lex_connected(a.skip(1), b.skip(1));
    }
}

/// The lexicographic order is a total order, so sorting by it has a unique
/// result.
pub proof fn lemma_lex_total_ordering()
    ensures
        total_ordering(lex_leq()),
{
    let r = lex_leq();
    assert forall|a: Seq<u8>| #[trigger] r(a, a) by {
        lemma_lex_refl(a);
    }
    assert forall|a: Seq<u8>, b: Seq<u8>| #[trigger] r(a, b) && #[trigger] r(b, a) implies a
        == b by {
        lemma_lex_antisym(a, b);
    }
    assert forall|a: Seq<u8>, b: Seq<u8>, c: Seq<u8>|
        #[trigger] r(a, b) && #[trigger] r(b, c) implies r(a, c) by {
        lemma_lex_trans(a, b, c);
    }
    assert forall|a: Seq<u8>, b: Seq<u8>| !(#[trigger] r(a, b)) implies r(b, a) by {
        lemma_lex_connected(a, b);
    }
}

/// The canonical key of a board: the column renderings sorted
/// lexicographically and concatenated, then the slot renderings likewise.
/// It is invariant under reordering the columns and, independently, the
/// slots, and two boards are considered equal exactly when their keys are
/// equal.
pub open spec fn canon_bytes(v: BoardView) -> Seq<u8> {
    renderings(v.stacks).sort_by(lex_leq()).flatten() + renderings(v.slots).sort_by(
        lex_leq(),
    ).flatten()
}

/// A key byte read as a character.
pub open spec fn byte_char(b: u8) -> char {
    if b == 48 {
        '0'
    } else if b == 49 {
        '1'
    } else if b == 50 {
        '2'
    } else if b == 51 {
        '3'
    } else if b == 52 {
        '4'
    } else if b == 53 {
        '5'
    } else if b == 54 {
        '6'
    } else if b == 55 {
        '7'
    } else if b == 56 {
        '8'
    } else if b == 57 {
        '9'
    } else if b == PILE_END {
        'T'
    } else {
        '?'
    }
}

/// The canonical key of a board as text.
pub open spec fn canon_str(v: BoardView) -> Seq<char> {
    canon_bytes(v).map_values(|b: u8| byte_char(b))
}

/// Compares two byte strings for equality.
pub fn bytes_eq(a: &Vec<u8>, b: &Vec<u8>) -> (r: bool)
    ensures
        r == (a@ == b@),
{
    if a.len() != b.len() {
        return false;
    }
    let mut i: usize = 0;
    while i < a.len()
        invariant
            a@.len() == b@.len(),
            i <= a@.len(),
            forall|j: int| 0 <= j < i ==> #[trigger] a@[j] == b@[j],
        decreases a@.len() - i,
    {
        if a[i] != b[i] {
            return false;
        }
        i += 1;
    }
    proof {
        assert(a@ =~= b@);
    }
    true
}

/// With the first `i` positions equal, the order of two byte strings is the
/// order of their remainders.
proof fn lemma_lex_skip(a: Seq<u8>, b: Seq<u8>, i: int)
    requires
        0 <= i <= a.len(),
        i <= b.len(),
        forall|j: int| 0 <= j < i ==> #[trigger] a[j] == b[j],
    ensures
        lex_le(a, b) == lex_le(a.skip(i), b.skip(i)),
    decreases i,
{
    if i == 0 {
        assert(a.skip(0) =~= a);
        assert(b.skip(0) =~= b);
    } else {
        assert(a[0] == b[0]);
        assert(a.len() > 0 && b.len() > 0);
        assert(lex_le(a, b) == lex_le(a.skip(1), b.skip(1)));
        assert(forall|j: int|
            0 <= j < i - 1 ==> #[trigger] a.skip(1)[j] == a[j + 1] && b.skip(1)[j] == b[j + 1]);
        lemma_lex_skip(a.skip(1), b.skip(1), i - 1);
        assert(a.skip(1).skip(i - 1) =~= a.skip(i));
        assert(b.skip(1).skip(i - 1) =~= b.skip(i));
    }
}

/// Decides the lexicographic order of two byte strings.
pub fn lex_le_exec(a: &Vec<u8>, b: &Vec<u8>) -> (r: bool)
    ensures
        r == lex_le(a@, b@),
{
    let mut i: usize = 0;
    loop
        invariant
            i <= a@.len(),
            i <= b@.len(),
            forall|j: int| 0 <= j < i ==> #[trigger] a@[j] == b@[j],
        decreases a@.len() - i,
    {
        proof {
            lemma_lex_skip(a@, b@, i as int);
        }
        if i == a.len() {
            proof {
                assert(a@.skip(i as int).len() == 0);
            }
            return true;
        }
        if i == b.len() {
            proof {
                assert(b@.skip(i as int).len() == 0);
                assert(a@.skip(i as int).len() > 0);
            }
            return false;
        }
        let x = a[i];
        let y = b[i];
        proof {
            assert(a@.skip(i as int)[0] == a@[i as int]);
            assert(b@.skip(i as int)[0] == b@[i as int]);
        }
        if x < y {
            return true;
        }
        if x > y {
            return false;
        }
        i += 1;
    }
}

/// Inserting an element anywhere adds exactly it to a sequence's multiset.
proof fn lemma_to_multiset_insert(s: Seq<Seq<u8>>, j: int, x: Seq<u8>)
    requires
        0 <= j <= s.len(),
    ensures
        s.insert(j, x).to_multiset() == s.to_multiset().insert(x),
{
    broadcast use vstd::seq_lib::group_to_multiset_ensures;

    let t = s.insert(j, x);
    assert(t =~= s.take(j).push(x) + s.skip(j));
    lemma_multiset_commutative(s.take(j).push(x), s.skip(j));
    assert(s =~= s.take(j) + s.skip(j));
    lemma_multiset_commutative(s.take(j), s.skip(j));
    assert(s.take(j).push(x).to_multiset() == s.take(j).to_multiset().insert(x));
    assert(t.to_multiset() =~= s.to_multiset().insert(x));
}

/// Removing the element at `j` takes exactly it out of the multiset.
proof fn lemma_to_multiset_remove(s: Seq<Seq<u8>>, j: int)
    requires
        0 <= j < s.len(),
    ensures
        s.remove(j).to_multiset() == s.to_multiset().remove(s[j]),
        s.to_multiset().count(s[j]) > 0,
{
    broadcast use vstd::seq_lib::group_to_multiset_ensures;

    assert(s.contains(s[j]));
}

/// Sorts a list of piles lexicographically; the result is the unique sorted
/// arrangement of the same piles.
fn sort_piles(v: &mut Vec<Vec<u8>>)
    ensures
        dv(final(v)@) == dv(old(v)@).sort_by(lex_leq()),
{
    let ghost orig = dv(old(v)@);
    proof {
        lemma_lex_total_ordering();
        orig.lemma_sort_by_ensures(lex_leq());
    }
    let mut i: usize = 1;
    while i < v.len()
        invariant
            1 <= i,
            v@.len() > 0 ==> i <= v@.len(),
            dv(v@).to_multiset() == orig.to_multiset(),
            v@.len() > 0 ==> sorted_by(dv(v@).take(i as int), lex_leq()),
        decreases v@.len() - i,
    {
        let ghost before = dv(v@);
        // find the insertion position for pile i within the sorted prefix
        let mut j: usize = i;
        while j > 0 && !lex_le_exec(&v[j - 1], &v[i])
            invariant
                0 <= j <= i < v@.len(),
                sorted_by(dv(v@).take(i as int), lex_leq()),
                dv(v@) == before,
                forall|k: int| j <= k < i ==> lex_le(dv(v@)[i as int], #[trigger] dv(v@)[k]),
            decreases j,
        {
            proof {
                lemma_lex_connected(dv(v@)[j - 1], dv(v@)[i as int]);
            }
            j -= 1;
        }
        let x = v.remove(i);
        let ghost removed = dv(v@);
        v.insert(j, x);
        proof {
            assert(removed =~= before.remove(i as int));
            assert(dv(v@) =~= removed.insert(j as int, x@));
            assert(x@ == before[i as int]);
            lemma_to_multiset_remove(before, i as int);
            lemma_to_multiset_insert(removed, j as int, x@);
            assert(dv(v@).to_multiset() =~= before.to_multiset());
            // the enlarged prefix is sorted
            let now = dv(v@);
            let leq = lex_leq();
            let pre = before.take(i as int);
            let upto = now.take(i + 1);
            assert(forall|k: int| 0 <= k < i ==> #[trigger] pre[k] == before[k]);
            assert(forall|k: int| 0 <= k < i + 1 ==> #[trigger] upto[k] == now[k]);
            assert forall|p: int, q: int| 0 <= p < q < upto.len() implies #[trigger] leq(
                upto[p],
                upto[q],
            ) by {
                if q < j {
                    assert(leq(pre[p], pre[q]));
                    assert(now[p] == before[p] && now[q] == before[q]);
                } else if p < j && q == j {
                    assert(now[q] == x@);
                    assert(now[p] == before[p]);
                    assert(lex_le(before[j - 1], x@));
                    if p < j - 1 {
                        assert(leq(pre[p], pre[j - 1]));
                        lemma_lex_trans(before[p], before[j - 1], x@);
                    }
                } else if p < j && q > j {
                    assert(now[p] == before[p] && now[q] == before[q - 1]);
                    assert(leq(pre[p], pre[q - 1]));
                } else if p == j {
                    assert(now[p] == x@);
                    assert(now[q] == before[q - 1]);
                    assert(j <= q - 1 < i);
                    assert(lex_le(before[i as int], before[q - 1]));
                } else {
                    assert(now[p] == before[p - 1] && now[q] == before[q - 1]);
                    assert(leq(pre[p - 1], pre[q - 1]));
                }
            }
            assert(sorted_by(upto, lex_leq()));
        }
        i += 1;
    }
    proof {
        assert(sorted_by(dv(v@), lex_leq())) by {
            if v@.len() > 0 {
                assert(i >= v@.len());
                assert(dv(v@).take(i as int) =~= dv(v@));
            }
        }
        lemma_sorted_unique(dv(v@), orig.sort_by(lex_leq()), lex_leq());
        assert(dv(v@) =~= orig.sort_by(lex_leq()));
    }
}

/// Renders one pile for the canonical key.
fn render_pile_exec(s: &Vec<u8>) -> (r: Vec<u8>)
    requires
        card_seq_ok(s@),
    ensures
        r@ == render_pile(s@),
{
    let mut r: Vec<u8> = Vec::new();
    let mut i: usize = 0;
    while i < s.len()
        invariant
            i <= s@.len(),
            card_seq_ok(s@),
            r@ == digits(s@.take(i as int)),
        decreases s@.len() - i,
    {
        proof {
            assert(s@[i as int] < NUM_RANKS as u8);
        }
        let c = s[i];
        r.push(c + 48);
        proof {
            assert(s@.take(i + 1) =~= s@.take(i as int).push(s@[i as int]));
            assert(digits(s@.take(i + 1)) =~= digits(s@.take(i as int)).push(
                digit_byte(s@[i as int]),
            ));
        }
        i += 1;
    }
    r.push(PILE_END);
    proof {
        assert(s@.take(s@.len() as int) =~= s@);
    }
    r
}

/// Appends the bytes of every pile, in order.
fn flatten_into(xs: &Vec<Vec<u8>>, out: &mut Vec<u8>)
    ensures
        final(out)@ == old(out)@ + dv(xs@).flatten(),
{
    proof {
        assert(dv(xs@).take(0) =~= Seq::<Seq<u8>>::empty());
        assert(dv(xs@).take(0).flatten() =~= Seq::<u8>::empty());
        assert(out@ =~= old(out)@ + dv(xs@).take(0).flatten());
    }
    let mut i: usize = 0;
    while i < xs.len()
        invariant
            i <= xs@.len(),
            out@ == old(out)@ + dv(xs@).take(i as int).flatten(),
        decreases xs@.len() - i,
    {
        let pile = &xs[i];
        let mut j: usize = 0;
        while j < pile.len()
            invariant
                i < xs@.len(),
                j <= pile@.len(),
                pile@ == xs@[i as int]@,
                out@ == old(out)@ + dv(xs@).take(i as int).flatten() + pile@.take(j as int),
            decreases pile@.len() - j,
        {
            out.push(pile[j]);
            proof {
                assert(pile@.take(j + 1) =~= pile@.take(j as int).push(pile@[j as int]));
                assert(old(out)@ + dv(xs@).take(i as int).flatten() + pile@.take(j + 1) =~= (old(
                    out,
                )@ + dv(xs@).take(i as int).flatten() + pile@.take(j as int)).push(
                    pile@[j as int],
                ));
            }
            j += 1;
        }
        proof {
            assert(pile@.take(pile@.len() as int) =~= pile@);
            let pref = dv(xs@).take(i as int);
            assert(dv(xs@).take(i + 1) =~= pref.push(dv(xs@)[i as int]));
            pref.lemma_flatten_push(dv(xs@)[i as int]);
            assert(old(out)@ + pref.flatten() + pile@ =~= old(out)@ + dv(xs@).take(
                i + 1,
            ).flatten());
        }
        i += 1;
    }
    proof {
        assert(dv(xs@).take(xs@.len() as int) =~= dv(xs@));
    }
}

impl Matrix {
    /// The canonical key of this board as bytes: invariant under reordering
    /// the columns and, independently, the slots.
    pub fn key_bytes(&self) -> (r: Vec<u8>)
        requires
            self.wf(),
        ensures
            r@ == canon_bytes(self@),
    {
        let mut cols: Vec<Vec<u8>> = Vec::new();
        let mut i: usize = 0;
        while i < self.stacks.len()
            invariant
                self.wf(),
                i <= self.stacks@.len(),
                dv(cols@) == renderings(dv(self.stacks@).take(i as int)),
            decreases self.stacks@.len() - i,
        {
            proof {
                assert(card_seq_ok(self@.stacks[i as int]));
                assert(self@.stacks[i as int] == self.stacks@[i as int]@);
            }
            let ghost cols_pre = dv(cols@);
            let rp = render_pile_exec(&self.stacks[i]);
            cols.push(rp);
            proof {
                let all = dv(self.stacks@);
                assert(dv(cols@) =~= cols_pre.push(rp@));
                assert(all.take(i + 1) =~= all.take(i as int).push(all[i as int]));
                assert(renderings(all.take(i + 1)) =~= renderings(all.take(i as int)).push(
                    render_pile(all[i as int]),
                ));
                assert(rp@ == render_pile(all[i as int]));
                assert(dv(cols@) =~= renderings(all.take(i + 1)));
            }
            i += 1;
        }
        proof {
            assert(dv(self.stacks@).take(self.stacks@.len() as int) =~= dv(self.stacks@));
        }
        sort_piles(&mut cols);
        let mut slot_rs: Vec<Vec<u8>> = Vec::new();
        let mut k: usize = 0;
        while k < self.slots.len()
            invariant
                self.wf(),
                k <= self.slots@.len(),
                dv(slot_rs@) == renderings(dv(self.slots@).take(k as int)),
            decreases self.slots@.len() - k,
        {
            proof {
                assert(card_seq_ok(self@.slots[k as int]));
                assert(self@.slots[k as int] == self.slots@[k as int]@);
            }
            let ghost slot_rs_pre = dv(slot_rs@);
            let rp = render_pile_exec(&self.slots[k]);
            slot_rs.push(rp);
            proof {
                let all = dv(self.slots@);
                assert(dv(slot_rs@) =~= slot_rs_pre.push(rp@));
                assert(all.take(k + 1) =~= all.take(k as int).push(all[k as int]));
                assert(renderings(all.take(k + 1)) =~= renderings(all.take(k as int)).push(
                    render_pile(all[k as int]),
                ));
                assert(rp@ == render_pile(all[k as int]));
                assert(dv(slot_rs@) =~= renderings(all.take(k + 1)));
            }
            k += 1;
        }
        proof {
            assert(dv(self.slots@).take(self.slots@.len() as int) =~= dv(self.slots@));
        }
        sort_piles(&mut slot_rs);
        let mut out: Vec<u8> = Vec::new();
        flatten_into(&cols, &mut out);
        flatten_into(&slot_rs, &mut out);
        proof {
            assert(out@ =~= canon_bytes(self@));
        }
        out
    }

    /// The canonical key of this board as text, used for equality and for
    /// membership in the visited set.
    pub fn to_hash_string(&self) -> (r: String)
        requires
            self.wf(),
        ensures
            r@ == canon_str(self@),
    {
        let key = self.key_bytes();
        let mut s = String::new();
        let mut i: usize = 0;
        while i < key.len()
            invariant
                i <= key@.len(),
                key@ == canon_bytes(self@),
                s@ == key@.take(i as int).map_values(|b: u8| byte_char(b)),
            decreases key@.len() - i,
        {
            append_byte_char(&mut s, key[i]);
            proof {
                assert(key@.take(i + 1) =~= key@.take(i as int).push(key@[i as int]));
                assert(key@.take(i + 1).map_values(|b: u8| byte_char(b)) =~= key@.take(
                    i as int,
                ).map_values(|b: u8| byte_char(b)).push(byte_char(key@[i as int])));
            }
            i += 1;
        }
        proof {
            assert(key@.take(key@.len() as int) =~= key@);
        }
        s
    }
}

/// Appends the character a key byte stands for.
fn append_byte_char(s: &mut String, b: u8)
    ensures
        final(s)@ == old(s)@.push(byte_char(b)),
{
    if b == 48 {
        s.append("0");
        proof {
            reveal_strlit("0");
            assert(old(s)@ + ("0")@ =~= old(s)@.push('0'));
        }
    } else if b == 49 {
        s.append("1");
        proof {
            reveal_strlit("1");
            assert(old(s)@ + ("1")@ =~= old(s)@.push('1'));
        }
    } else if b == 50 {
        s.append("2");
        proof {
            reveal_strlit("2");
            assert(old(s)@ + ("2")@ =~= old(s)@.push('2'));
        }
    } else if b == 51 {
        s.append("3");
        proof {
            reveal_strlit("3");
            assert(old(s)@ + ("3")@ =~= old(s)@.push('3'));
        }
    } else if b == 52 {
        s.append("4");
        proof {
            reveal_strlit("4");
            assert(old(s)@ + ("4")@ =~= old(s)@.push('4'));
        }
    } else if b == 53 {
        s.append("5");
        proof {
            reveal_strlit("5");
            assert(old(s)@ + ("5")@ =~= old(s)@.push('5'));
        }
    } else if b == 54 {
        s.append("6");
        proof {
            reveal_strlit("6");
            assert(old(s)@ + ("6")@ =~= old(s)@.push('6'));
        }
    } else if b == 55 {
        s.append("7");
        proof {
            reveal_strlit("7");
            assert(old(s)@ + ("7")@ =~= old(s)@.push('7'));
        }
    } else if b == 56 {
        s.append("8");
        proof {
            reveal_strlit("8");
            assert(old(s)@ + ("8")@ =~= old(s)@.push('8'));
        }
    } else if b == 57 {
        s.append("9");
        proof {
            reveal_strlit("9");
            assert(old(s)@ + ("9")@ =~= old(s)@.push('9'));
        }
    } else if b == PILE_END {
        s.append("T");
        proof {
            reveal_strlit("T");
            assert(old(s)@ + ("T")@ =~= old(s)@.push('T'));
        }
    } else {
        s.append("?");
        proof {
            reveal_strlit("?");
            assert(old(s)@ + ("?")@ =~= old(s)@.push('?'));
        }
    }
}

/// Lists with equal multisets have renderings with equal multisets.
proof fn lemma_renderings_multiset(x: Seq<Seq<u8>>, y: Seq<Seq<u8>>)
    requires
        x.to_multiset() == y.to_multiset(),
    ensures
        renderings(x).to_multiset() == renderings(y).to_multiset(),
    decreases x.len(),
{
    broadcast use vstd::seq_lib::group_to_multiset_ensures;
    broadcast use vstd::multiset::group_multiset_axioms;

    if x.len() == 0 {
        assert(y.len() == y.to_multiset().len());
        assert(renderings(x) =~= renderings(y));
    } else {
        let e = x.last();
        assert(x.contains(e));
        assert(y.to_multiset().count(e) > 0);
        assert(y.contains(e));
        let j = choose|j: int| 0 <= j < y.len() && y[j] == e;
        assert(x.remove(x.len() - 1) =~= x.drop_last());
        assert(x.drop_last().to_multiset() == x.to_multiset().remove(e));
        assert(y.remove(j).to_multiset() == y.to_multiset().remove(e));
        lemma_renderings_multiset(x.drop_last(), y.remove(j));
        assert(renderings(x) =~= renderings(x.drop_last()).push(render_pile(e)));
        assert(renderings(y.remove(j)) =~= renderings(y).remove(j));
        assert(renderings(x).to_multiset() == renderings(x.drop_last()).to_multiset().insert(
            render_pile(e),
        ));
        assert(renderings(y).remove(j).to_multiset() == renderings(y).to_multiset().remove(
            renderings(y)[j],
        ));
        assert(renderings(y)[j] == render_pile(e));
        assert(renderings(y).contains(render_pile(e)));
        assert(renderings(y).to_multiset().count(render_pile(e)) > 0);
        assert(renderings(y).to_multiset() =~= renderings(y).to_multiset().remove(
            render_pile(e),
        ).insert(render_pile(e)));
    }
}

/// Permutation invariance of the canonical key: two boards whose column
/// lists hold the same columns in any order, and whose slot lists hold the
/// same slots in any order, have the same canonical key.
pub proof fn lemma_canonical_key_permutation_invariant(a: BoardView, b: BoardView)
    requires
        a.stacks.to_multiset() == b.stacks.to_multiset(),
        a.slots.to_multiset() == b.slots.to_multiset(),
    ensures
        canon_bytes(a) == canon_bytes(b),
        canon_str(a) == canon_str(b),
{
    lemma_lex_total_ordering();
    lemma_renderings_multiset(a.stacks, b.stacks);
    lemma_renderings_multiset(a.slots, b.slots);
    renderings(a.stacks).lemma_sort_by_ensures(lex_leq());
    renderings(b.stacks).lemma_sort_by_ensures(lex_leq());
    renderings(a.slots).lemma_sort_by_ensures(lex_leq());
    renderings(b.slots).lemma_sort_by_ensures(lex_leq());
    lemma_sorted_unique(
        renderings(a.stacks).sort_by(lex_leq()),
        renderings(b.stacks).sort_by(lex_leq()),
        lex_leq(),
    );
    lemma_sorted_unique(
        renderings(a.slots).sort_by(lex_leq()),
        renderings(b.slots).sort_by(lex_leq()),
        lex_leq(),
    );
    assert(canon_bytes(a) == canon_bytes(b));
}

} // verus!
