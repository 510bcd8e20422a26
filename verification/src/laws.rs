//! The general properties the library promises, stated and proved over the
//! specification functions that the public contracts use.

use vstd::prelude::*;

use crate::error::Kind;
use crate::merchants_guide::{all_same, lookup, spec_step, question_text, unknown_words};
use crate::roman::{
    can_subtract_spec, numeral_ok, pairs_ok, rep_ok, repeatable, symbol_of, value, walk_val, Roman,
};
use crate::text;

verus! {

/// The summation accepts `s`: exactly the condition under which `sum`
/// returns a value.
pub open spec fn sum_accepts(s: Seq<Roman>) -> bool {
    numeral_ok(s) && walk_val(s) <= i32::MAX
}

/// The conventional reading of a numeral: each symbol adds its value,
/// negated when a strictly larger symbol follows it.
pub open spec fn signed_value(s: Seq<Roman>) -> int
    decreases s.len(),
{
    if s.len() == 0 {
        0
    } else if s.len() >= 2 && value(s[0]) < value(s[1]) {
        -value(s[0]) + signed_value(s.skip(1))
    } else {
        value(s[0]) + signed_value(s.skip(1))
    }
}

/// Every symbol's value is at least 1.
proof fn lemma_value_pos(r: Roman)
    ensures
        value(r) >= 1,
{
    match r {
        Roman::I => {},
        Roman::V => {},
        Roman::X => {},
        Roman::L => {},
        Roman::C => {},
        Roman::D => {},
        Roman::M => {},
    }
}

/// The ordering rule survives dropping symbols from the front.
proof fn lemma_pairs_ok_skip(s: Seq<Roman>, k: int)
    requires
        pairs_ok(s),
        0 <= k <= s.len(),
    ensures
        pairs_ok(s.skip(k)),
{
    let t = s.skip(k);
    assert forall|i: int|
        #![trigger t[i], t[i + 1]]
        0 <= i && i + 1 < t.len() && value(t[i]) < value(t[i + 1]) implies can_subtract_spec(
        t[i],
        t[i + 1],
    ) by {
        assert(t[i] == s[i + k] && t[i + 1] == s[i + k + 1]);
        assert(value(s[i + k]) < value(s[i + k + 1]));
    }
    assert forall|i: int|
        #![trigger t[i], t[i + 2]]
        0 <= i && i + 2 < t.len() && value(t[i + 1]) < value(t[i + 2]) implies value(t[i]) >= value(
        t[i + 2],
    ) by {
        assert(t[i] == s[i + k] && t[i + 1] == s[i + k + 1] && t[i + 2] == s[i + k + 2]);
        assert(value(s[i + k + 1]) < value(s[i + k + 2]));
    }
}

/// Under the ordering rule the greedy left-to-right walk computes the
/// conventional signed value: the rule forbids two ascents in a row, so
/// every subtractive pair starts at a walked position.
pub proof fn lemma_pairs_walk(s: Seq<Roman>)
    requires
        pairs_ok(s),
    ensures
        walk_val(s) == signed_value(s),
    decreases s.len(),
{
    if s.len() == 0 {
    } else if s.len() == 1 {
        assert(s.skip(1).len() == 0);
        assert(signed_value(s.skip(1)) == 0);
        assert(signed_value(s) == value(s[0]));
    } else if value(s[0]) < value(s[1]) {
        if s.len() >= 3 && value(s[1]) < value(s[2]) {
            let i: int = 0;
            assert(value(s[i + 1]) < value(s[i + 2]));
            assert(value(s[i]) >= value(s[i + 2]));
            assert(false);
        }
        lemma_pairs_ok_skip(s, 2);
        lemma_pairs_walk(s.skip(2));
        assert(s.skip(1)[0] == s[1]);
        assert(s.skip(1).skip(1) =~= s.skip(2));
        if s.len() >= 3 {
            assert(s.skip(1)[1] == s[2]);
        }
        assert(signed_value(s.skip(1)) == value(s[1]) + signed_value(s.skip(2)));
        assert(walk_val(s) == value(s[1]) - value(s[0]) + walk_val(s.skip(2)));
        assert(signed_value(s) == -value(s[0]) + signed_value(s.skip(1)));
    } else {
        lemma_pairs_ok_skip(s, 1);
        lemma_pairs_walk(s.skip(1));
        assert(walk_val(s) == value(s[0]) + walk_val(s.skip(1)));
        assert(signed_value(s) == value(s[0]) + signed_value(s.skip(1)));
    }
}

/// A numeral that obeys the formation rules and whose value is in range is
/// accepted by the summation, with its conventional value.
pub proof fn lemma_classical_numeral_sums(s: Seq<Roman>)
    requires
        numeral_ok(s),
        signed_value(s) <= i32::MAX,
    ensures
        sum_accepts(s),
        walk_val(s) == signed_value(s),
{
    lemma_pairs_walk(s);
}

/// Whatever the summation accepts has the classical shape: every
/// ascending adjacency is one of the six permitted pairs, a pair's second
/// member is no larger than the symbol two places before it, the
/// repetition rule holds, and the returned value is the conventional
/// signed value.
pub proof fn lemma_accepted_shape(s: Seq<Roman>)
    requires
        sum_accepts(s),
    ensures
        pairs_ok(s),
        rep_ok(s),
        walk_val(s) == signed_value(s),
{
    lemma_pairs_walk(s);
}

/// A sequence that repeats a symbol against the repetition rule — four of
/// a kind in a row, or V, L or D twice anywhere — is never summed to a
/// value.
pub proof fn lemma_repetition_rejected(s: Seq<Roman>, i: int, j: int)
    requires
        0 <= i,
        (i + 3 < s.len() && s[i + 1] == s[i] && s[i + 2] == s[i] && s[i + 3] == s[i]) || (i < j
            < s.len() && !repeatable(s[i]) && s[j] == s[i]),
    ensures
        !sum_accepts(s),
{
    assert(!rep_ok(s));
}

/// A sequence with an invalid subtractive or ordering pattern anywhere —
/// an ascending adjacency outside the six permitted pairs, or a pair whose
/// second member exceeds the symbol two places before it — is never summed
/// to a value.
pub proof fn lemma_invalid_pattern_rejected(s: Seq<Roman>, i: int)
    requires
        0 <= i,
        i + 1 < s.len(),
        value(s[i]) < value(s[i + 1]),
        ({
            ||| !can_subtract_spec(s[i], s[i + 1])
            ||| (i >= 1 && value(s[i - 1]) < value(s[i + 1]))
        }),
    ensures
        !sum_accepts(s),
{
    if !can_subtract_spec(s[i], s[i + 1]) {
        assert(!pairs_ok(s));
    } else {
        assert(value(s[i - 1 + 1]) < value(s[i - 1 + 2]) && value(s[i - 1]) < value(s[i - 1 + 2]));
        assert(!pairs_ok(s));
    }
}

/// The canonical rendering of one decimal digit at a given place: `one`,
/// `five` and `ten` are the symbols worth 1, 5 and 10 units of that place.
pub open spec fn digit_group(one: Roman, five: Roman, ten: Roman, d: int) -> Seq<Roman> {
    if d <= 0 {
        Seq::empty()
    } else if d == 1 {
        seq![one]
    } else if d == 2 {
        seq![one, one]
    } else if d == 3 {
        seq![one, one, one]
    } else if d == 4 {
        seq![one, five]
    } else if d == 5 {
        seq![five]
    } else if d == 6 {
        seq![five, one]
    } else if d == 7 {
        seq![five, one, one]
    } else if d == 8 {
        seq![five, one, one, one]
    } else {
        seq![one, ten]
    }
}

/// A run of `t` copies of `sym`.
pub open spec fn sym_run(sym: Roman, t: int) -> Seq<Roman>
    decreases t,
{
    if t <= 0 {
        Seq::empty()
    } else {
        seq![sym] + sym_run(sym, t - 1)
    }
}

/// The conventional value of concatenated numerals adds up when they meet
/// in a descent.
proof fn lemma_signed_concat(a: Seq<Roman>, b: Seq<Roman>)
    requires
        a.len() > 0 && b.len() > 0 ==> value(a.last()) >= value(b[0]),
    ensures
        signed_value(a + b) == signed_value(a) + signed_value(b),
    decreases a.len(),
{
    let s = a + b;
    if a.len() == 0 {
        assert(s =~= b);
    } else if b.len() == 0 {
        assert(s =~= a);
    } else if a.len() == 1 {
        assert(s[0] == a[0] && s[1] == b[0]);
        assert(!(value(s[0]) < value(s[1])));
        assert(s.skip(1) =~= b);
        assert(signed_value(s) == value(a[0]) + signed_value(b));
        assert(a.skip(1) =~= Seq::<Roman>::empty());
        assert(signed_value(Seq::<Roman>::empty()) == 0);
        assert(signed_value(a) == value(a[0]));
    } else {
        assert(s[0] == a[0] && s[1] == a[1]);
        assert(a.skip(1).last() == a.last());
        lemma_signed_concat(a.skip(1), b);
        assert(s.skip(1) =~= a.skip(1) + b);
        if value(a[0]) < value(a[1]) {
            assert(signed_value(s) == -value(a[0]) + signed_value(a.skip(1) + b));
            assert(signed_value(a) == -value(a[0]) + signed_value(a.skip(1)));
        } else {
            assert(signed_value(s) == value(a[0]) + signed_value(a.skip(1) + b));
            assert(signed_value(a) == value(a[0]) + signed_value(a.skip(1)));
        }
    }
}

/// The ordering rule survives concatenation when the parts meet in a
/// descent and the right part's opening pair, if any, leans on a large
/// enough closing symbol of the left part.
#[verifier::rlimit(100)]
proof fn lemma_pairs_concat(a: Seq<Roman>, b: Seq<Roman>)
    requires
        pairs_ok(a),
        pairs_ok(b),
        a.len() > 0 && b.len() > 0 ==> value(a.last()) >= value(b[0]),
        a.len() > 0 && b.len() >= 2 && value(b[0]) < value(b[1]) ==> value(a.last()) >= value(
            b[1],
        ),
    ensures
        pairs_ok(a + b),
{
    let s = a + b;
    let al = a.len() as int;
    if a.len() == 0 {
        assert(s =~= b);
    } else {
        assert forall|i: int|
            #![trigger s[i], s[i + 1]]
            0 <= i && i + 1 < s.len() && value(s[i]) < value(s[i + 1]) implies can_subtract_spec(
            s[i],
            s[i + 1],
        ) by {
            if i + 1 < al {
                assert(s[i] == a[i] && s[i + 1] == a[i + 1]);
                assert(value(a[i]) < value(a[i + 1]));
                assert(can_subtract_spec(a[i], a[i + 1]));
            } else if i == al - 1 {
                assert(s[i] == a[al - 1] && s[i + 1] == b[0]);
                assert(a.last() == a[al - 1]);
                assert(b.len() > 0);
                assert(value(a.last()) >= value(b[0]));
                assert(false);
            } else {
                assert(s[i] == b[i - al] && s[i + 1] == b[i + 1 - al]);
                assert(value(b[i - al]) < value(b[i - al + 1]));
                assert(can_subtract_spec(b[i - al], b[i - al + 1]));
            }
        }
        assert forall|i: int|
            #![trigger s[i], s[i + 2]]
            0 <= i && i + 2 < s.len() && value(s[i + 1]) < value(s[i + 2]) implies value(s[i])
            >= value(s[i + 2]) by {
            if i + 2 < al {
                assert(s[i] == a[i] && s[i + 1] == a[i + 1] && s[i + 2] == a[i + 2]);
                assert(value(a[i + 1]) < value(a[i + 2]));
                assert(value(a[i]) >= value(a[i + 2]));
            } else if i + 2 == al {
                assert(s[i + 1] == a[al - 1] && s[i + 2] == b[0]);
                assert(a.last() == a[al - 1]);
                assert(b.len() > 0);
                assert(value(a.last()) >= value(b[0]));
                assert(false);
            } else if i + 1 == al {
                assert(s[i] == a[al - 1] && s[i + 1] == b[0] && s[i + 2] == b[1]);
                assert(a.last() == a[al - 1]);
                assert(value(b[0]) < value(b[1]));
                assert(value(a.last()) >= value(b[1]));
            } else {
                assert(s[i] == b[i - al] && s[i + 1] == b[i - al + 1] && s[i + 2] == b[i - al
                    + 2]);
                assert(value(b[i - al + 1]) < value(b[i - al + 2]));
                assert(value(b[i - al]) >= value(b[i - al + 2]));
            }
        }
    }
}

/// The repetition rule survives concatenation when the parts do not meet
/// in equal symbols and no unrepeatable symbol of the left part occurs in
/// the right part.
#[verifier::rlimit(100)]
proof fn lemma_rep_concat(a: Seq<Roman>, b: Seq<Roman>)
    requires
        rep_ok(a),
        rep_ok(b),
        a.len() > 0 && b.len() > 0 ==> a.last() != b[0],
        forall|i: int, j: int|
            #![trigger a[i], b[j]]
            0 <= i < a.len() && 0 <= j < b.len() && !repeatable(a[i]) ==> b[j] != a[i],
    ensures
        rep_ok(a + b),
{
    let s = a + b;
    let al = a.len() as int;
    assert forall|i: int| #![trigger s[i], s[i + 3]] 0 <= i && i + 3 < s.len() implies !(s[i + 1]
        == s[i] && s[i + 2] == s[i] && s[i + 3] == s[i]) by {
        if i + 3 < al {
            assert(s[i] == a[i] && s[i + 1] == a[i + 1] && s[i + 2] == a[i + 2] && s[i + 3] == a[i
                + 3]);
            assert(!(a[i + 1] == a[i] && a[i + 2] == a[i] && a[i + 3] == a[i]));
        } else if i >= al {
            assert(s[i] == b[i - al] && s[i + 1] == b[i - al + 1] && s[i + 2] == b[i - al + 2]
                && s[i + 3] == b[i - al + 3]);
            assert(!(b[i - al + 1] == b[i - al] && b[i - al + 2] == b[i - al] && b[i - al + 3]
                == b[i - al]));
        } else {
            assert(i <= al - 1 <= i + 3 && i <= al <= i + 3);
            assert(s[al - 1] == a[al - 1] && s[al] == b[0]);
            if s[i + 1] == s[i] && s[i + 2] == s[i] && s[i + 3] == s[i] {
                assert(s[al - 1] == s[i] && s[al] == s[i]);
                assert(false);
            }
        }
    }
    assert forall|i: int, j: int|
        #![trigger s[i], s[j]]
        0 <= i < j < s.len() && !repeatable(s[i]) implies s[j] != s[i] by {
        if j < al {
            assert(s[i] == a[i] && s[j] == a[j]);
        } else if i >= al {
            assert(s[i] == b[i - al] && s[j] == b[j - al]);
        } else {
            assert(s[i] == a[i] && s[j] == b[j - al]);
        }
    }
}

/// The shape of a nonempty digit group: its length, symbols, ends, value,
/// and obedience to both formation rules.
#[verifier::rlimit(100)]
proof fn lemma_group_facts(one: Roman, five: Roman, ten: Roman, d: int)
    requires
        1 <= d <= 9,
        value(five) == 5 * value(one),
        value(ten) == 10 * value(one),
        can_subtract_spec(one, five),
        can_subtract_spec(one, ten),
        repeatable(one),
    ensures
        ({
            let g = digit_group(one, five, ten, d);
            &&& 1 <= g.len() <= 4
            &&& (forall|k: int|
                #![trigger g[k]]
                0 <= k < g.len() ==> g[k] == one || g[k] == five || g[k] == ten)
            &&& (g[0] == one || g[0] == five)
            &&& (g.len() >= 2 && value(g[0]) < value(g[1]) ==> value(g[1]) <= 10 * value(one))
            &&& pairs_ok(g)
            &&& rep_ok(g)
            &&& signed_value(g) == d * value(one)
        }),
{
    lemma_value_pos(one);
    let g = digit_group(one, five, ten, d);
    assert(signed_value(Seq::<Roman>::empty()) == 0);
    assert(one != five);
    assert(one != ten);
    assert(five != ten);
    if d == 1 {
        assert(g =~= seq![one]);
        assert(seq![one].skip(1) =~= Seq::<Roman>::empty());
        assert(signed_value(g) == value(one));
    } else if d == 2 {
        assert(g =~= seq![one, one]);
        assert(seq![one, one].skip(1) =~= seq![one]);
        assert(seq![one].skip(1) =~= Seq::<Roman>::empty());
        assert(signed_value(seq![one]) == value(one));
        assert(signed_value(g) == 2 * value(one));
    } else if d == 3 {
        assert(g =~= seq![one, one, one]);
        assert(seq![one, one, one].skip(1) =~= seq![one, one]);
        assert(seq![one, one].skip(1) =~= seq![one]);
        assert(seq![one].skip(1) =~= Seq::<Roman>::empty());
        assert(signed_value(seq![one]) == value(one));
        assert(signed_value(seq![one, one]) == 2 * value(one));
        assert(signed_value(g) == 3 * value(one));
    } else if d == 4 {
        assert(g =~= seq![one, five]);
        assert(seq![one, five].skip(1) =~= seq![five]);
        assert(seq![five].skip(1) =~= Seq::<Roman>::empty());
        assert(signed_value(seq![five]) == value(five));
        assert(signed_value(g) == 4 * value(one));
    } else if d == 5 {
        assert(g =~= seq![five]);
        assert(seq![five].skip(1) =~= Seq::<Roman>::empty());
        assert(signed_value(g) == value(five));
    } else if d == 6 {
        assert(g =~= seq![five, one]);
        assert(seq![five, one].skip(1) =~= seq![one]);
        assert(seq![one].skip(1) =~= Seq::<Roman>::empty());
        assert(signed_value(seq![one]) == value(one));
        assert(signed_value(g) == 6 * value(one));
    } else if d == 7 {
        assert(g =~= seq![five, one, one]);
        assert(seq![five, one, one].skip(1) =~= seq![one, one]);
        assert(seq![one, one].skip(1) =~= seq![one]);
        assert(seq![one].skip(1) =~= Seq::<Roman>::empty());
        assert(signed_value(seq![one]) == value(one));
        assert(signed_value(seq![one, one]) == 2 * value(one));
        assert(signed_value(g) == 7 * value(one));
    } else if d == 8 {
        assert(g =~= seq![five, one, one, one]);
        assert(seq![five, one, one, one].skip(1) =~= seq![one, one, one]);
        assert(seq![one, one, one].skip(1) =~= seq![one, one]);
        assert(seq![one, one].skip(1) =~= seq![one]);
        assert(seq![one].skip(1) =~= Seq::<Roman>::empty());
        assert(signed_value(seq![one]) == value(one));
        assert(signed_value(seq![one, one]) == 2 * value(one));
        assert(signed_value(seq![one, one, one]) == 3 * value(one));
        assert(signed_value(g) == 8 * value(one));
    } else {
        assert(g =~= seq![one, ten]);
        assert(seq![one, ten].skip(1) =~= seq![ten]);
        assert(seq![ten].skip(1) =~= Seq::<Roman>::empty());
        assert(signed_value(seq![ten]) == value(ten));
        assert(signed_value(g) == 9 * value(one));
    }
}

/// The shape of a run: all the same repeatable symbol, so both formation
/// rules hold, and the value is the plain multiple.
#[verifier::rlimit(100)]
proof fn lemma_run_facts(sym: Roman, t: int)
    requires
        1 <= t <= 3,
        repeatable(sym),
    ensures
        ({
            let run = sym_run(sym, t);
            &&& run.len() == t
            &&& (forall|k: int| #![trigger run[k]] 0 <= k < run.len() ==> run[k] == sym)
            &&& pairs_ok(run)
            &&& rep_ok(run)
            &&& signed_value(run) == t * value(sym)
        }),
{
    assert(signed_value(Seq::<Roman>::empty()) == 0);
    assert(sym_run(sym, 0) =~= Seq::<Roman>::empty());
    assert(sym_run(sym, 1) =~= seq![sym] + sym_run(sym, 0));
    assert(sym_run(sym, 1) =~= seq![sym]);
    assert(sym_run(sym, 2) =~= seq![sym, sym]);
    assert(sym_run(sym, 3) =~= seq![sym, sym, sym]);
    assert(seq![sym].skip(1) =~= Seq::<Roman>::empty());
    assert(seq![sym, sym].skip(1) =~= seq![sym]);
    assert(seq![sym, sym, sym].skip(1) =~= seq![sym, sym]);
    assert(signed_value(seq![sym]) == value(sym));
    assert(signed_value(seq![sym, sym]) == 2 * value(sym));
    assert(signed_value(seq![sym, sym, sym]) == 3 * value(sym));
}

/// The units group: formation rules, value `u`, and the bounds the next
/// higher place needs at the boundary.
#[verifier::rlimit(100)]
proof fn lemma_units_suffix(u: int)
    requires
        0 <= u <= 9,
    ensures
        ({
            let s = digit_group(Roman::I, Roman::V, Roman::X, u);
            &&& pairs_ok(s)
            &&& rep_ok(s)
            &&& signed_value(s) == u
            &&& (forall|k: int| #![trigger s[k]] 0 <= k < s.len() ==> value(s[k]) <= 10)
            &&& (s.len() > 0 ==> value(s[0]) <= 5)
            &&& (s.len() >= 2 && value(s[0]) < value(s[1]) ==> value(s[1]) <= 10)
        }),
{
    let s = digit_group(Roman::I, Roman::V, Roman::X, u);
    if u == 0 {
        assert(s =~= Seq::<Roman>::empty());
        assert(signed_value(s) == 0);
    } else {
        lemma_group_facts(Roman::I, Roman::V, Roman::X, u);
    }
}

/// The tens and units groups together: formation rules, value
/// `10 te + u`, and the boundary bounds for the hundreds place.
#[verifier::rlimit(100)]
proof fn lemma_tens_suffix(te: int, u: int)
    requires
        0 <= te <= 9,
        0 <= u <= 9,
    ensures
        ({
            let s = digit_group(Roman::X, Roman::L, Roman::C, te) + digit_group(
                Roman::I,
                Roman::V,
                Roman::X,
                u,
            );
            &&& pairs_ok(s)
            &&& rep_ok(s)
            &&& signed_value(s) == 10 * te + u
            &&& (forall|k: int| #![trigger s[k]] 0 <= k < s.len() ==> value(s[k]) <= 100)
            &&& (s.len() > 0 ==> value(s[0]) <= 50)
            &&& (s.len() >= 2 && value(s[0]) < value(s[1]) ==> value(s[1]) <= 100)
        }),
{
    lemma_units_suffix(u);
    let gt = digit_group(Roman::X, Roman::L, Roman::C, te);
    let gu = digit_group(Roman::I, Roman::V, Roman::X, u);
    let s = gt + gu;
    if te == 0 {
        assert(gt =~= Seq::<Roman>::empty());
        assert(s =~= gu);
    } else {
        lemma_group_facts(Roman::X, Roman::L, Roman::C, te);
        if gu.len() > 0 {
            assert(value(gt.last()) >= 10 && value(gu[0]) <= 5);
            assert(gt.last() != gu[0]);
        }
        assert forall|i: int, j: int|
            #![trigger gt[i], gu[j]]
            0 <= i < gt.len() && 0 <= j < gu.len() && !repeatable(gt[i]) implies gu[j] != gt[i] by {
            assert(gt[i] == Roman::X || gt[i] == Roman::L || gt[i] == Roman::C);
            assert(gt[i] == Roman::L);
            assert(value(gu[j]) <= 10);
        }
        lemma_signed_concat(gt, gu);
        lemma_pairs_concat(gt, gu);
        lemma_rep_concat(gt, gu);
        assert forall|k: int| #![trigger s[k]] 0 <= k < s.len() implies value(s[k]) <= 100 by {
            if k < gt.len() {
                assert(s[k] == gt[k]);
            } else {
                assert(s[k] == gu[k - gt.len()]);
            }
        }
        assert(s[0] == gt[0]);
        if s.len() >= 2 && value(s[0]) < value(s[1]) {
            if gt.len() >= 2 {
                assert(s[1] == gt[1]);
            } else {
                assert(s[1] == gu[0]);
                assert(value(s[0]) >= 10 && value(s[1]) <= 5);
                assert(false);
            }
        }
    }
}

/// The hundreds, tens and units groups together: formation rules, value
/// `100 h + 10 te + u`, and the boundary bounds for the thousands.
#[verifier::rlimit(100)]
proof fn lemma_hundreds_suffix(h: int, te: int, u: int)
    requires
        0 <= h <= 9,
        0 <= te <= 9,
        0 <= u <= 9,
    ensures
        ({
            let s = digit_group(Roman::C, Roman::D, Roman::M, h) + (digit_group(
                Roman::X,
                Roman::L,
                Roman::C,
                te,
            ) + digit_group(Roman::I, Roman::V, Roman::X, u));
            &&& pairs_ok(s)
            &&& rep_ok(s)
            &&& signed_value(s) == 100 * h + 10 * te + u
            &&& (forall|k: int| #![trigger s[k]] 0 <= k < s.len() ==> value(s[k]) <= 1000)
            &&& (s.len() > 0 ==> value(s[0]) <= 500)
            &&& (s.len() >= 2 && value(s[0]) < value(s[1]) ==> value(s[1]) <= 1000)
        }),
{
    lemma_tens_suffix(te, u);
    let gh = digit_group(Roman::C, Roman::D, Roman::M, h);
    let gtu = digit_group(Roman::X, Roman::L, Roman::C, te) + digit_group(
        Roman::I,
        Roman::V,
        Roman::X,
        u,
    );
    let s = gh + gtu;
    if h == 0 {
        assert(gh =~= Seq::<Roman>::empty());
        assert(s =~= gtu);
    } else {
        lemma_group_facts(Roman::C, Roman::D, Roman::M, h);
        if gtu.len() > 0 {
            assert(value(gh.last()) >= 100 && value(gtu[0]) <= 50);
            assert(gh.last() != gtu[0]);
        }
        assert forall|i: int, j: int|
            #![trigger gh[i], gtu[j]]
            0 <= i < gh.len() && 0 <= j < gtu.len() && !repeatable(gh[i]) implies gtu[j] != gh[
            i] by {
            assert(gh[i] == Roman::C || gh[i] == Roman::D || gh[i] == Roman::M);
            assert(gh[i] == Roman::D);
            assert(value(gtu[j]) <= 100);
        }
        lemma_signed_concat(gh, gtu);
        lemma_pairs_concat(gh, gtu);
        lemma_rep_concat(gh, gtu);
        assert forall|k: int| #![trigger s[k]] 0 <= k < s.len() implies value(s[k]) <= 1000 by {
            if k < gh.len() {
                assert(s[k] == gh[k]);
            } else {
                assert(s[k] == gtu[k - gh.len()]);
            }
        }
        assert(s[0] == gh[0]);
        if s.len() >= 2 && value(s[0]) < value(s[1]) {
            if gh.len() >= 2 {
                assert(s[1] == gh[1]);
            } else {
                assert(s[1] == gtu[0]);
                assert(value(s[0]) >= 100 && value(s[1]) <= 50);
                assert(false);
            }
        }
    }
}

/// The canonical rendering of `n` as a Roman numeral: up to three Ms, then
/// one group for each remaining decimal digit.
pub open spec fn canonical_numeral(n: int) -> Seq<Roman> {
    sym_run(Roman::M, n / 1000) + (digit_group(Roman::C, Roman::D, Roman::M, (n / 100) % 10)
        + (digit_group(Roman::X, Roman::L, Roman::C, (n / 10) % 10) + digit_group(
        Roman::I,
        Roman::V,
        Roman::X,
        n % 10,
    )))
}

/// The canonical numeral of every number up to 3999 obeys the formation
/// rules, is accepted by the summation, and sums to that number: the
/// round trip from a number to its numeral and back through `sum` is the
/// identity.
#[verifier::rlimit(100)]
pub proof fn lemma_canonical_numeral_value(n: int)
    requires
        1 <= n <= 3999,
    ensures
        numeral_ok(canonical_numeral(n)),
        sum_accepts(canonical_numeral(n)),
        walk_val(canonical_numeral(n)) == n,
{
    let t = n / 1000;
    let h = (n / 100) % 10;
    let te = (n / 10) % 10;
    let u = n % 10;
    assert(0 <= u <= 9 && 0 <= te <= 9 && 0 <= h <= 9 && 0 <= t <= 3);
    assert(n == 1000 * t + 100 * h + 10 * te + u) by (nonlinear_arith)
        requires
            t == n / 1000,
            h == (n / 100) % 10,
            te == (n / 10) % 10,
            u == n % 10,
            1 <= n <= 3999,
    ;
    lemma_hundreds_suffix(h, te, u);
    let s3 = digit_group(Roman::C, Roman::D, Roman::M, h) + (digit_group(
        Roman::X,
        Roman::L,
        Roman::C,
        te,
    ) + digit_group(Roman::I, Roman::V, Roman::X, u));
    let s = canonical_numeral(n);
    assert(signed_value(s3) == 100 * h + 10 * te + u);
    if t == 0 {
        assert(sym_run(Roman::M, 0) =~= Seq::<Roman>::empty());
        assert(s =~= s3);
        assert(signed_value(s) == n);
    } else {
        lemma_run_facts(Roman::M, t);
        let run = sym_run(Roman::M, t);
        assert(run.last() == Roman::M);
        if s3.len() > 0 {
            assert(value(s3[0]) <= 500);
            assert(run.last() != s3[0]);
        }
        assert forall|i: int, j: int|
            #![trigger run[i], s3[j]]
            0 <= i < run.len() && 0 <= j < s3.len() && !repeatable(run[i]) implies s3[j] != run[
            i] by {
            assert(run[i] == Roman::M);
        }
        lemma_signed_concat(run, s3);
        lemma_pairs_concat(run, s3);
        lemma_rep_concat(run, s3);
        assert(signed_value(run) == t * value(Roman::M));
        assert(signed_value(run) == 1000 * t) by (nonlinear_arith)
            requires
                signed_value(run) == t * value(Roman::M),
                value(Roman::M) == 1000,
        ;
        assert(signed_value(run + s3) == signed_value(run) + signed_value(s3));
        assert(signed_value(run + s3) == 1000 * t + (100 * h + 10 * te + u));
        assert(s =~= run + s3);
        assert(signed_value(s) == n);
    }
    assert(signed_value(s) == n);
    lemma_pairs_walk(s);
    assert(walk_val(s) == n);
}

/// Rebinding a word that is already bound to a symbol fails with
/// `InvalidInput` and changes nothing, whatever the old and new symbols
/// are.
pub proof fn lemma_rebind_rejected(
    words: Seq<(Seq<char>, Roman)>,
    credits: Seq<(Seq<char>, int)>,
    line: Seq<char>,
)
    requires
        !text::contains_seq(line, "how"@),
        !text::contains_seq(line, "?"@),
        text::spec_count_occ(line, " is "@) == 1,
        !text::contains_seq(line.skip(text::spec_find(line, " is "@) + " is "@.len()), "Credits"@),
        symbol_of(line.skip(text::spec_find(line, " is "@) + " is "@.len())) is Some,
        lookup(words, line.take(text::spec_find(line, " is "@))) is Some,
    ensures
        ({
            let st = spec_step(words, credits, line);
            &&& !st.ok
            &&& st.kind == Kind::InvalidInput
            &&& st.words == words
            &&& st.credits == credits
        }),
{
}

/// Binding a key of more than one word to a symbol fails with
/// `InvalidInput` and changes nothing.
pub proof fn lemma_multiword_key_rejected(
    words: Seq<(Seq<char>, Roman)>,
    credits: Seq<(Seq<char>, int)>,
    line: Seq<char>,
)
    requires
        !text::contains_seq(line, "how"@),
        !text::contains_seq(line, "?"@),
        text::spec_count_occ(line, " is "@) == 1,
        !text::contains_seq(line.skip(text::spec_find(line, " is "@) + " is "@.len()), "Credits"@),
        symbol_of(line.skip(text::spec_find(line, " is "@) + " is "@.len())) is Some,
        text::spec_split_ws(line.take(text::spec_find(line, " is "@))).len() > 1,
    ensures
        ({
            let st = spec_step(words, credits, line);
            &&& !st.ok
            &&& st.kind == Kind::InvalidInput
            &&& st.words == words
            &&& st.credits == credits
        }),
{
}

/// A statement without exactly one " is " separator fails with
/// `InvalidInput` and changes nothing.
pub proof fn lemma_missing_separator_rejected(
    words: Seq<(Seq<char>, Roman)>,
    credits: Seq<(Seq<char>, int)>,
    line: Seq<char>,
)
    requires
        !text::contains_seq(line, "how"@),
        !text::contains_seq(line, "?"@),
        text::spec_count_occ(line, " is "@) != 1,
    ensures
        ({
            let st = spec_step(words, credits, line);
            &&& !st.ok
            &&& st.kind == Kind::InvalidInput
            &&& st.words == words
            &&& st.credits == credits
        }),
{
}

/// A "how many Credits" question whose phrase names zero distinct unit
/// words, or more than one, always fails; it never silently picks one.
pub proof fn lemma_unit_word_count_enforced(
    words: Seq<(Seq<char>, Roman)>,
    credits: Seq<(Seq<char>, int)>,
    line: Seq<char>,
)
    requires
        text::contains_seq(line, "how"@) || text::contains_seq(line, "?"@),
        !text::contains_seq(line, "how much is "@),
        text::contains_seq(line, "how many Credits is "@),
        ({
            let unk = unknown_words(
                words,
                text::spec_split_ws(question_text(line, "how many Credits is "@)),
            );
            unk.len() == 0 || !all_same(unk)
        }),
    ensures
        ({
            let st = spec_step(words, credits, line);
            &&& !st.ok
            &&& st.kind == Kind::InvalidInput
            &&& st.words == words
            &&& st.credits == credits
        }),
{
}

} // verus!
