//! The adding machine computes the sum of its two binary arguments.

use vstd::prelude::*;
use crate::binary_add::{add_action, add_table};
use crate::machine::{
    Action, Conf, MachineModel, Move, ProgramModel, halts_with, lemma_reaches_halt,
    lemma_reaches_refl, lemma_reaches_step, lemma_reaches_trans, lemma_scan_left,
    lemma_scan_right, lemma_scan_right_off_end, lemma_sweep_right, lookup, reaches, rewritten,
    start_conf, step,
};
use crate::digits::{all_binary, mark, unmark};

verus! {

/// The symbols of the adding machine.
pub open spec fn add_alphabet() -> Seq<char> {
    seq!['0', '1', '+', 'F', 'T', '=', '?', '_']
}

/// The adding machine: its alphabet, its last state 40, its table and the
/// blank `_`.
pub open spec fn add_model() -> MachineModel {
    MachineModel {
        program: ProgramModel { alphabet: add_alphabet(), last_state: 40, table: add_table() },
        blank: '_',
    }
}

/// The `i`-th character of `s` once its last `k` digits are marked.
pub open spec fn marked_at(s: Seq<char>, k: int, i: int) -> char {
    if i >= s.len() - k {
        mark(s[i])
    } else {
        s[i]
    }
}

/// The tape while the machine lays out the digits of the sum: `lead` blanks,
/// the first addend with its last `ka` digits marked, `+`, the second addend
/// with its last `kb` digits marked, `=` and `nq` unknown digits.
pub open spec fn layout_tape(a: Seq<char>, b: Seq<char>, lead: int, ka: int, kb: int, nq: int) -> Seq<char> {
    Seq::new(
        (lead + a.len() + b.len() + 2 + nq) as nat,
        |i: int|
            {
                let j = i - lead;
                if j < 0 {
                    '_'
                } else if j < a.len() {
                    marked_at(a, ka, j)
                } else if j == a.len() {
                    '+'
                } else if j < a.len() + 1 + b.len() {
                    marked_at(b, kb, j - a.len() - 1)
                } else if j == a.len() + 1 + b.len() {
                    '='
                } else {
                    '?'
                }
            },
    )
}

/// A round of the layout while both addends have unmarked digits: mark the last
/// unmarked digit of each and add an unknown digit at the right end.
proof fn lemma_layout_both(a: Seq<char>, b: Seq<char>, j: int)
    requires
        all_binary(a),
        all_binary(b),
        0 <= j < a.len(),
        j < b.len(),
    ensures
        reaches(
            add_model(),
            Conf { tape: layout_tape(a, b, 0, j, j, j + 1), head: a.len() + b.len() + j + 1, state: 3 },
            Conf { tape: layout_tape(a, b, 0, j + 1, j + 1, j + 2), head: a.len() + b.len() + j + 2, state: 3 },
        ),
{
    let m = add_model();
    let p = a.len() as int;
    let q = b.len() as int;
    let t0 = layout_tape(a, b, 0, j, j, j + 1);
    let c0 = Conf { tape: t0, head: p + q + j + 1, state: 3 };
    assert forall|i: int| p + q - j < i <= p + q + j + 1 implies #[trigger] lookup(m, 3, t0[i]) == Some(
        Action { next: 3, write: t0[i], shift: Move::Left },
    ) by {
        if i < p + q + 1 {
            assert(t0[i] == mark(b[i - p - 1]));
        }
    }
    lemma_scan_left(m, t0, 3, p + q + j + 1, p + q - j);
    let c1 = Conf { tape: t0, head: p + q - j, state: 3 };
    let d = b[q - 1 - j];
    assert(t0[p + q - j] == d);
    let t1 = t0.update(p + q - j, mark(d));
    let c2 = Conf { tape: t1, head: p + q - j - 1, state: 4 };
    assert(step(m, c1) == Some(c2));
    lemma_reaches_step(m, c1);
    assert forall|i: int| p < i <= p + q - j - 1 implies #[trigger] lookup(m, 4, t1[i]) == Some(
        Action { next: 4, write: t1[i], shift: Move::Left },
    ) by {
        assert(t1[i] == b[i - p - 1]);
    }
    lemma_scan_left(m, t1, 4, p + q - j - 1, p);
    let c3 = Conf { tape: t1, head: p, state: 4 };
    let c4 = Conf { tape: t1, head: p - 1, state: 6 };
    assert(t1.update(p, '+') =~= t1);
    assert(step(m, c3) == Some(c4));
    lemma_reaches_step(m, c3);
    assert forall|i: int| p - 1 - j < i <= p - 1 implies #[trigger] lookup(m, 6, t1[i]) == Some(
        Action { next: 6, write: t1[i], shift: Move::Left },
    ) by {
        assert(t1[i] == mark(a[i]));
    }
    lemma_scan_left(m, t1, 6, p - 1, p - 1 - j);
    let c5 = Conf { tape: t1, head: p - 1 - j, state: 6 };
    let e = a[p - 1 - j];
    assert(t1[p - 1 - j] == e);
    let t2 = t1.update(p - 1 - j, mark(e));
    let c6 = Conf { tape: t2, head: p - j, state: 8 };
    assert(step(m, c5) == Some(c6));
    lemma_reaches_step(m, c5);
    assert forall|i: int| p - j <= i < t2.len() implies #[trigger] lookup(m, 8, t2[i]) == Some(
        Action { next: 8, write: t2[i], shift: Move::Right },
    ) by {
        if i < p {
            assert(t2[i] == mark(a[i]));
        } else if p < i < p + 1 + q {
            assert(t2[i] == b[i - p - 1] || t2[i] == mark(b[i - p - 1]));
        }
    }
    lemma_scan_right_off_end(m, t2, 8, p - j);
    let c7 = Conf { tape: t2.push('_'), head: t2.len() as int, state: 8 };
    let t3 = t2.push('?');
    let c8 = Conf { tape: t3, head: t2.len() - 1, state: 3 };
    assert(t2.push('_').update(t2.len() as int, '?') =~= t3);
    assert(step(m, c7) == Some(c8));
    lemma_reaches_step(m, c7);
    assert(t3 =~= layout_tape(a, b, 0, j + 1, j + 1, j + 2));
    lemma_reaches_trans(m, c0, c1, c2);
    lemma_reaches_trans(m, c0, c2, c3);
    lemma_reaches_trans(m, c0, c3, c4);
    lemma_reaches_trans(m, c0, c4, c5);
    lemma_reaches_trans(m, c0, c5, c6);
    lemma_reaches_trans(m, c0, c6, c7);
    lemma_reaches_trans(m, c0, c7, c8);
}


/// The second addend has no unmarked digit left: states 5 and 7 mark the first
/// addend's remaining digits, one unknown digit of the sum for each; then state
/// 5 adds a blank at the left end and the unmarking starts.
proof fn lemma_layout_first_only(a: Seq<char>, b: Seq<char>, j: int, h: int)
    requires
        all_binary(a),
        all_binary(b),
        b.len() <= j <= a.len(),
        0 < a.len(),
        a.len() - 1 - j < h <= a.len() + b.len() + j + 1,
        0 <= h,
    ensures
        reaches(
            add_model(),
            Conf { tape: layout_tape(a, b, 0, j, b.len() as int, j + 1), head: h, state: 5 },
            Conf { tape: layout_tape(a, b, 1, a.len() as int, b.len() as int, a.len() + 1int), head: 1, state: 11 },
        ),
    decreases a.len() - j,
{
    let m = add_model();
    let p = a.len() as int;
    let q = b.len() as int;
    let t0 = layout_tape(a, b, 0, j, q, j + 1);
    let c0 = Conf { tape: t0, head: h, state: 5 };
    let goal = Conf { tape: layout_tape(a, b, 1, p, q, p + 1), head: 1, state: 11 };
    if j == p {
        assert forall|i: int| 0 < i <= h implies #[trigger] lookup(m, 5, t0[i]) == Some(
            Action { next: 5, write: t0[i], shift: Move::Left },
        ) by {
            if i < p {
                assert(t0[i] == mark(a[i]));
            } else if p < i < p + 1 + q {
                assert(t0[i] == mark(b[i - p - 1]));
            }
        }
        lemma_scan_left(m, t0, 5, h, 0);
        let c1 = Conf { tape: t0, head: 0, state: 5 };
        assert(t0[0] == mark(a[0]));
        assert(t0.update(0, t0[0]) =~= t0);
        let c2 = Conf { tape: seq!['_'] + t0, head: 0, state: 5 };
        assert(step(m, c1) == Some(c2));
        lemma_reaches_step(m, c1);
        assert((seq!['_'] + t0).update(0, '_') =~= seq!['_'] + t0);
        assert(seq!['_'] + t0 =~= layout_tape(a, b, 1, p, q, p + 1));
        assert(step(m, c2) == Some(goal));
        lemma_reaches_step(m, c2);
        lemma_reaches_trans(m, c0, c1, c2);
        lemma_reaches_trans(m, c0, c2, goal);
    } else {
        assert forall|i: int| p - 1 - j < i <= h implies #[trigger] lookup(m, 5, t0[i]) == Some(
            Action { next: 5, write: t0[i], shift: Move::Left },
        ) by {
            if i < p {
                assert(t0[i] == mark(a[i]));
            } else if p < i < p + 1 + q {
                assert(t0[i] == mark(b[i - p - 1]));
            }
        }
        lemma_scan_left(m, t0, 5, h, p - 1 - j);
        let c1 = Conf { tape: t0, head: p - 1 - j, state: 5 };
        let e = a[p - 1 - j];
        assert(t0[p - 1 - j] == e);
        let t1 = t0.update(p - 1 - j, mark(e));
        let c2 = Conf { tape: t1, head: p - j, state: 7 };
        assert(step(m, c1) == Some(c2));
        lemma_reaches_step(m, c1);
        assert forall|i: int| p - j <= i < t1.len() implies #[trigger] lookup(m, 7, t1[i]) == Some(
            Action { next: 7, write: t1[i], shift: Move::Right },
        ) by {
            if i < p {
                assert(t1[i] == mark(a[i]));
            } else if p < i < p + 1 + q {
                assert(t1[i] == mark(b[i - p - 1]));
            }
        }
        lemma_scan_right_off_end(m, t1, 7, p - j);
        let c3 = Conf { tape: t1.push('_'), head: t1.len() as int, state: 7 };
        let t2 = t1.push('?');
        let c4 = Conf { tape: t2, head: t1.len() - 1, state: 5 };
        assert(t1.push('_').update(t1.len() as int, '?') =~= t2);
        assert(step(m, c3) == Some(c4));
        lemma_reaches_step(m, c3);
        assert(t2 =~= layout_tape(a, b, 0, j + 1, q, j + 2));
        lemma_layout_first_only(a, b, j + 1, t1.len() - 1);
        lemma_reaches_trans(m, c0, c1, c2);
        lemma_reaches_trans(m, c0, c2, c3);
        lemma_reaches_trans(m, c0, c3, c4);
        lemma_reaches_trans(m, c0, c4, goal);
    }
}

/// The first addend has no unmarked digit left: states 9 and 10 mark the second
/// addend's remaining digits, one unknown digit of the sum for each; then state
/// 12 walks back to the left blank and the unmarking starts.
proof fn lemma_layout_second_only(a: Seq<char>, b: Seq<char>, j: int)
    requires
        all_binary(a),
        all_binary(b),
        a.len() < j <= b.len(),
    ensures
        reaches(
            add_model(),
            Conf { tape: layout_tape(a, b, 1, a.len() as int, j, j + 1), head: a.len() + b.len() + j + 2, state: 10 },
            Conf { tape: layout_tape(a, b, 1, a.len() as int, b.len() as int, b.len() + 1int), head: 1, state: 11 },
        ),
    decreases b.len() - j,
{
    let m = add_model();
    let p = a.len() as int;
    let q = b.len() as int;
    let t0 = layout_tape(a, b, 1, p, j, j + 1);
    let c0 = Conf { tape: t0, head: p + q + j + 2, state: 10 };
    let goal = Conf { tape: layout_tape(a, b, 1, p, q, q + 1), head: 1, state: 11 };
    if j == q {
        assert forall|i: int| p + 1 < i <= p + q + j + 2 implies #[trigger] lookup(m, 10, t0[i]) == Some(
            Action { next: 10, write: t0[i], shift: Move::Left },
        ) by {
            if i < p + q + 2 {
                assert(t0[i] == mark(b[i - p - 2]));
            }
        }
        lemma_scan_left(m, t0, 10, p + q + j + 2, p + 1);
        let c1 = Conf { tape: t0, head: p + 1, state: 10 };
        let c2 = Conf { tape: t0, head: p, state: 12 };
        assert(t0.update(p + 1, '+') =~= t0);
        assert(step(m, c1) == Some(c2));
        lemma_reaches_step(m, c1);
        assert forall|i: int| 0 < i <= p implies #[trigger] lookup(m, 12, t0[i]) == Some(
            Action { next: 12, write: t0[i], shift: Move::Left },
        ) by {
            assert(t0[i] == mark(a[i - 1]));
        }
        lemma_scan_left(m, t0, 12, p, 0);
        let c3 = Conf { tape: t0, head: 0, state: 12 };
        assert(t0.update(0, '_') =~= t0);
        assert(step(m, c3) == Some(goal));
        lemma_reaches_step(m, c3);
        lemma_reaches_trans(m, c0, c1, c2);
        lemma_reaches_trans(m, c0, c2, c3);
        lemma_reaches_trans(m, c0, c3, goal);
    } else {
        let k = p + q + 1 - j;
        assert forall|i: int| k < i <= p + q + j + 2 implies #[trigger] lookup(m, 10, t0[i]) == Some(
            Action { next: 10, write: t0[i], shift: Move::Left },
        ) by {
            if i < p + q + 2 {
                assert(t0[i] == mark(b[i - p - 2]));
            }
        }
        lemma_scan_left(m, t0, 10, p + q + j + 2, k);
        let c1 = Conf { tape: t0, head: k, state: 10 };
        let d = b[q - 1 - j];
        assert(t0[k] == d);
        let t1 = t0.update(k, mark(d));
        let c2 = Conf { tape: t1, head: k + 1, state: 9 };
        assert(step(m, c1) == Some(c2));
        lemma_reaches_step(m, c1);
        assert forall|i: int| k + 1 <= i < t1.len() implies #[trigger] lookup(m, 9, t1[i]) == Some(
            Action { next: 9, write: t1[i], shift: Move::Right },
        ) by {
            if i < p + q + 2 {
                assert(t1[i] == mark(b[i - p - 2]));
            }
        }
        lemma_scan_right_off_end(m, t1, 9, k + 1);
        let c3 = Conf { tape: t1.push('_'), head: t1.len() as int, state: 9 };
        let t2 = t1.push('?');
        let c4 = Conf { tape: t2, head: t1.len() - 1, state: 10 };
        assert(t1.push('_').update(t1.len() as int, '?') =~= t2);
        assert(step(m, c3) == Some(c4));
        lemma_reaches_step(m, c3);
        assert(t2 =~= layout_tape(a, b, 1, p, j + 1, j + 2));
        lemma_layout_second_only(a, b, j + 1);
        lemma_reaches_trans(m, c0, c1, c2);
        lemma_reaches_trans(m, c0, c2, c3);
        lemma_reaches_trans(m, c0, c3, c4);
        lemma_reaches_trans(m, c0, c4, goal);
    }
}

/// Rounds of the layout while both addends have unmarked digits, from round `j`
/// until one of them is exhausted.
proof fn lemma_layout_both_rounds(a: Seq<char>, b: Seq<char>, j: int)
    requires
        all_binary(a),
        all_binary(b),
        0 <= j <= a.len(),
        j <= b.len(),
    ensures
        ({
            let n = if a.len() <= b.len() { a.len() as int } else { b.len() as int };
            reaches(
                add_model(),
                Conf { tape: layout_tape(a, b, 0, j, j, j + 1), head: a.len() + b.len() + j + 1, state: 3 },
                Conf { tape: layout_tape(a, b, 0, n, n, n + 1), head: a.len() + b.len() + n + 1, state: 3 },
            )
        }),
    decreases a.len() - j,
{
    let m = add_model();
    let c0 = Conf { tape: layout_tape(a, b, 0, j, j, j + 1), head: a.len() + b.len() + j + 1, state: 3 };
    if j < a.len() && j < b.len() {
        lemma_layout_both(a, b, j);
        lemma_layout_both_rounds(a, b, j + 1);
        let n = if a.len() <= b.len() { a.len() as int } else { b.len() as int };
        lemma_reaches_trans(
            m,
            c0,
            Conf { tape: layout_tape(a, b, 0, j + 1, j + 1, j + 2), head: a.len() + b.len() + j + 2, state: 3 },
            Conf { tape: layout_tape(a, b, 0, n, n, n + 1), head: a.len() + b.len() + n + 1, state: 3 },
        );
    } else {
        lemma_reaches_refl(m, c0);
    }
}

/// The larger of two lengths.
pub open spec fn longer(a: Seq<char>, b: Seq<char>) -> int {
    if a.len() >= b.len() {
        a.len() as int
    } else {
        b.len() as int
    }
}

/// The tape the adding machine starts from: `a+b=` and a blank.
pub open spec fn addition_input(a: Seq<char>, b: Seq<char>) -> Seq<char> {
    a + seq!['+'] + b + seq!['=', '_']
}

/// The layout: the machine walks to the end, lays out one unknown digit of the
/// sum for each digit of the longer addend and one more, adds a blank at the
/// left end, unmarks the addends and stops left of `=` in state 13.
proof fn lemma_layout(a: Seq<char>, b: Seq<char>)
    requires
        all_binary(a),
        all_binary(b),
        0 < a.len(),
        0 < b.len(),
    ensures
        reaches(
            add_model(),
            start_conf(addition_input(a, b)),
            Conf { tape: layout_tape(a, b, 1, 0, 0, longer(a, b) + 1), head: a.len() + b.len() + 1int, state: 13 },
        ),
{
    let m = add_model();
    let p = a.len() as int;
    let q = b.len() as int;
    let big = longer(a, b);
    let t0 = addition_input(a, b);
    let c0 = start_conf(t0);
    assert forall|i: int| 0 <= i < p + q + 1 implies #[trigger] lookup(m, 1, t0[i]) == Some(
        Action { next: 1, write: t0[i], shift: Move::Right },
    ) by {
        if i < p {
            assert(t0[i] == a[i]);
        } else if p < i {
            assert(t0[i] == b[i - p - 1]);
        }
    }
    lemma_scan_right(m, t0, 1, 0, p + q + 1);
    let c1 = Conf { tape: t0, head: p + q + 1, state: 1 };
    let c2 = Conf { tape: t0, head: p + q + 2, state: 2 };
    assert(t0[p + q + 1] == '=');
    assert(t0.update(p + q + 1, '=') =~= t0);
    assert(step(m, c1) == Some(c2));
    lemma_reaches_step(m, c1);
    let t1 = layout_tape(a, b, 0, 0, 0, 1);
    let c3 = Conf { tape: t1, head: p + q + 1, state: 3 };
    assert(t0[p + q + 2] == '_');
    assert(t0.update(p + q + 2, '?') =~= t1);
    assert(step(m, c2) == Some(c3));
    lemma_reaches_step(m, c2);
    lemma_reaches_trans(m, c0, c1, c2);
    lemma_reaches_trans(m, c0, c2, c3);
    lemma_layout_both_rounds(a, b, 0);
    let unmarking = Conf { tape: layout_tape(a, b, 1, p, q, big + 1), head: 1, state: 11 };
    if q <= p {
        let t2 = layout_tape(a, b, 0, q, q, q + 1);
        let c4 = Conf { tape: t2, head: p + q + q + 1, state: 3 };
        lemma_reaches_trans(m, c0, c3, c4);
        assert forall|i: int| p < i <= p + q + q + 1 implies #[trigger] lookup(m, 3, t2[i]) == Some(
            Action { next: 3, write: t2[i], shift: Move::Left },
        ) by {
            if i < p + q + 1 {
                assert(t2[i] == mark(b[i - p - 1]));
            }
        }
        lemma_scan_left(m, t2, 3, p + q + q + 1, p);
        let c5 = Conf { tape: t2, head: p, state: 3 };
        let c6 = Conf { tape: t2, head: p - 1, state: 5 };
        assert(t2.update(p, '+') =~= t2);
        assert(step(m, c5) == Some(c6));
        lemma_reaches_step(m, c5);
        lemma_layout_first_only(a, b, q, p - 1);
        lemma_reaches_trans(m, c0, c4, c5);
        lemma_reaches_trans(m, c0, c5, c6);
        lemma_reaches_trans(m, c0, c6, unmarking);
    } else {
        let t2 = layout_tape(a, b, 0, p, p, p + 1);
        let c4 = Conf { tape: t2, head: p + q + p + 1, state: 3 };
        lemma_reaches_trans(m, c0, c3, c4);
        assert forall|i: int| q < i <= p + q + p + 1 implies #[trigger] lookup(m, 3, t2[i]) == Some(
            Action { next: 3, write: t2[i], shift: Move::Left },
        ) by {
            if i < p + q + 1 {
                assert(t2[i] == mark(b[i - p - 1]));
            }
        }
        lemma_scan_left(m, t2, 3, p + q + p + 1, q);
        let c5 = Conf { tape: t2, head: q, state: 3 };
        let d = b[q - 1 - p];
        assert(t2[q] == d);
        let t3 = t2.update(q, mark(d));
        let c6 = Conf { tape: t3, head: q - 1, state: 4 };
        assert(step(m, c5) == Some(c6));
        lemma_reaches_step(m, c5);
        assert forall|i: int| p < i <= q - 1 implies #[trigger] lookup(m, 4, t3[i]) == Some(
            Action { next: 4, write: t3[i], shift: Move::Left },
        ) by {
            assert(t3[i] == b[i - p - 1]);
        }
        lemma_scan_left(m, t3, 4, q - 1, p);
        let c7 = Conf { tape: t3, head: p, state: 4 };
        let c8 = Conf { tape: t3, head: p - 1, state: 6 };
        assert(t3.update(p, '+') =~= t3);
        assert(step(m, c7) == Some(c8));
        lemma_reaches_step(m, c7);
        assert forall|i: int| 0 < i <= p - 1 implies #[trigger] lookup(m, 6, t3[i]) == Some(
            Action { next: 6, write: t3[i], shift: Move::Left },
        ) by {
            assert(t3[i] == mark(a[i]));
        }
        lemma_scan_left(m, t3, 6, p - 1, 0);
        let c9 = Conf { tape: t3, head: 0, state: 6 };
        assert(t3[0] == mark(a[0]));
        assert(t3.update(0, t3[0]) =~= t3);
        let t4 = seq!['_'] + t3;
        let c10 = Conf { tape: t4, head: 0, state: 6 };
        assert(step(m, c9) == Some(c10));
        lemma_reaches_step(m, c9);
        let c11 = Conf { tape: t4, head: 1, state: 9 };
        assert(t4.update(0, '_') =~= t4);
        assert(step(m, c10) == Some(c11));
        lemma_reaches_step(m, c10);
        assert forall|i: int| 1 <= i < t4.len() implies #[trigger] lookup(m, 9, t4[i]) == Some(
            Action { next: 9, write: t4[i], shift: Move::Right },
        ) by {
            if i < p + 1 {
                assert(t4[i] == mark(a[i - 1]));
            } else if p + 1 < i < p + q + 2 {
                assert(t4[i] == b[i - p - 2] || t4[i] == mark(b[i - p - 2]));
            }
        }
        lemma_scan_right_off_end(m, t4, 9, 1);
        let c12 = Conf { tape: t4.push('_'), head: t4.len() as int, state: 9 };
        let t5 = t4.push('?');
        let c13 = Conf { tape: t5, head: t4.len() - 1, state: 10 };
        assert(t4.push('_').update(t4.len() as int, '?') =~= t5);
        assert(step(m, c12) == Some(c13));
        lemma_reaches_step(m, c12);
        assert(t5 =~= layout_tape(a, b, 1, p, p + 1, p + 2));
        lemma_layout_second_only(a, b, p + 1);
        lemma_reaches_trans(m, c0, c4, c5);
        lemma_reaches_trans(m, c0, c5, c6);
        lemma_reaches_trans(m, c0, c6, c7);
        lemma_reaches_trans(m, c0, c7, c8);
        lemma_reaches_trans(m, c0, c8, c9);
        lemma_reaches_trans(m, c0, c9, c10);
        lemma_reaches_trans(m, c0, c10, c11);
        lemma_reaches_trans(m, c0, c11, c12);
        lemma_reaches_trans(m, c0, c12, c13);
        lemma_reaches_trans(m, c0, c13, unmarking);
    }
    let t6 = layout_tape(a, b, 1, p, q, big + 1);
    assert forall|i: int| 1 <= i < p + q + 2 implies #[trigger] lookup(m, 11, t6[i]) == Some(
        Action { next: 11, write: unmark(t6[i]), shift: Move::Right },
    ) by {
        if i < p + 1 {
            assert(t6[i] == mark(a[i - 1]));
        } else if p + 1 < i {
            assert(t6[i] == mark(b[i - p - 2]));
        }
    }
    lemma_sweep_right(m, t6, 11, 1, p + q + 2, |c: char| unmark(c));
    let t7 = layout_tape(a, b, 1, 0, 0, big + 1);
    assert(rewritten(t6, 1, p + q + 2, |c: char| unmark(c)) =~= t7);
    let c14 = Conf { tape: t7, head: p + q + 2, state: 11 };
    let c15 = Conf { tape: t7, head: p + q + 1, state: 13 };
    assert(t7.update(p + q + 2, '=') =~= t7);
    assert(step(m, c14) == Some(c15));
    lemma_reaches_step(m, c14);
    lemma_reaches_trans(m, c0, unmarking, c14);
    lemma_reaches_trans(m, c0, c14, c15);
}

/// The value of a binary digit.
pub open spec fn digit_value(c: char) -> nat {
    if c == '1' {
        1
    } else {
        0
    }
}

/// The digit of weight `2^k` of the binary numeral `s`, zero beyond its length.
pub open spec fn digit_at(s: Seq<char>, k: int) -> nat {
    if 0 <= k < s.len() {
        digit_value(s[s.len() - 1 - k])
    } else {
        0
    }
}

/// The carry into the digit of weight `2^k` when adding `a` and `b`.
pub open spec fn carry_in(a: Seq<char>, b: Seq<char>, k: nat) -> nat
    decreases k,
{
    if k == 0 {
        0
    } else {
        (digit_at(a, k - 1) + digit_at(b, k - 1) + carry_in(a, b, (k - 1) as nat)) / 2
    }
}

/// The digit of weight `2^k` of the sum of `a` and `b`.
pub open spec fn sum_bit(a: Seq<char>, b: Seq<char>, k: nat) -> nat {
    (digit_at(a, k as int) + digit_at(b, k as int) + carry_in(a, b, k)) % 2
}

pub open spec fn bit_char(x: nat) -> char {
    if x == 0 {
        '0'
    } else {
        '1'
    }
}

/// The `k` least significant digits of the sum of `a` and `b`, most significant
/// first.
pub open spec fn low_sum_digits(a: Seq<char>, b: Seq<char>, k: nat) -> Seq<char>
    decreases k,
{
    if k == 0 {
        Seq::empty()
    } else {
        seq![bit_char(sum_bit(a, b, (k - 1) as nat))] + low_sum_digits(a, b, (k - 1) as nat)
    }
}

/// The digits the adding machine writes for `a + b`: one more than the longer
/// addend has, most significant first.
pub open spec fn sum_digits(a: Seq<char>, b: Seq<char>) -> Seq<char> {
    seq![bit_char(carry_in(a, b, longer(a, b) as nat))] + low_sum_digits(a, b, longer(a, b) as nat)
}

pub proof fn lemma_carry_is_bit(a: Seq<char>, b: Seq<char>, k: nat)
    ensures
        carry_in(a, b, k) <= 1,
    decreases k,
{
    if k > 0 {
        lemma_carry_is_bit(a, b, (k - 1) as nat);
    }
}

pub proof fn lemma_low_sum_digits(a: Seq<char>, b: Seq<char>, k: nat)
    ensures
        low_sum_digits(a, b, k).len() == k,
        all_binary(low_sum_digits(a, b, k)),
    decreases k,
{
    if k > 0 {
        lemma_low_sum_digits(a, b, (k - 1) as nat);
        let rest = low_sum_digits(a, b, (k - 1) as nat);
        let all = low_sum_digits(a, b, k);
        assert forall|i: int| 0 <= i < all.len() implies crate::digits::is_binary_digit(#[trigger] all[i]) by {
            if i > 0 {
                assert(all[i] == rest[i - 1]);
            }
        }
    }
}

/// The tape while the machine adds: a blank, the first addend with its last
/// `ka` digits marked, `+`, the second addend with its last `kb` digits marked,
/// `=`, `nq` unknown digits, the digits `s` of the sum found so far and, when
/// `trail`, a blank.
pub open spec fn sum_tape(a: Seq<char>, b: Seq<char>, ka: int, kb: int, nq: int, s: Seq<char>, trail: bool) -> Seq<char> {
    Seq::new(
        (a.len() + b.len() + 3 + nq + s.len() + if trail { 1int } else { 0int }) as nat,
        |i: int|
            {
                let j = i - 1;
                if j < 0 {
                    '_'
                } else if j < a.len() {
                    marked_at(a, ka, j)
                } else if j == a.len() {
                    '+'
                } else if j < a.len() + 1 + b.len() {
                    marked_at(b, kb, j - a.len() - 1)
                } else if j == a.len() + 1 + b.len() {
                    '='
                } else if j < a.len() + b.len() + 2 + nq {
                    '?'
                } else if j < a.len() + b.len() + 2 + nq + s.len() {
                    s[j - a.len() - b.len() - 2 - nq]
                } else {
                    '_'
                }
            },
    )
}

/// The state that starts a round of the addition: 13 without carry, 28 with.
pub open spec fn round_state(carry: nat) -> nat {
    if carry == 0 {
        13
    } else {
        28
    }
}

/// The state that looks for the first addend's digit, once the second addend's
/// digit of weight `2^k` is known.
pub open spec fn pending_state(b: Seq<char>, k: int, carry: nat) -> nat {
    if k >= b.len() {
        if carry == 0 {
            16
        } else {
            31
        }
    } else if digit_at(b, k) == 0 {
        if carry == 0 {
            17
        } else {
            32
        }
    } else {
        if carry == 0 {
            18
        } else {
            33
        }
    }
}

/// The state that carries a digit of the sum, by the total of the two digits
/// and the carry, to the right end.
pub open spec fn transfer_state(total: nat) -> nat {
    if total == 0 {
        19
    } else if total == 1 {
        20
    } else if total == 2 {
        22
    } else {
        35
    }
}

/// The state that writes that digit in the rightmost unknown place.
pub open spec fn write_state(total: nat) -> nat {
    if total == 0 {
        23
    } else if total == 1 {
        24
    } else if total == 2 {
        25
    } else {
        37
    }
}

/// A round reads the second addend's digit of weight `2^k`, or finds it
/// exhausted, and walks to the `+`.
proof fn lemma_round_second(a: Seq<char>, b: Seq<char>, k: int, nq: int, s: Seq<char>, trail: bool, carry: nat)
    requires
        all_binary(a),
        all_binary(b),
        0 <= k,
        0 <= nq,
        carry <= 1,
    ensures
        reaches(
            add_model(),
            Conf { tape: sum_tape(a, b, k, k, nq, s, trail), head: a.len() + b.len() + 1int, state: round_state(carry) },
            Conf { tape: sum_tape(a, b, k, k + 1, nq, s, trail), head: a.len() as int, state: pending_state(b, k, carry) },
        ),
{
    let m = add_model();
    let p = a.len() as int;
    let q = b.len() as int;
    let t0 = sum_tape(a, b, k, k, nq, s, trail);
    let x = round_state(carry);
    let c0 = Conf { tape: t0, head: p + q + 1, state: x };
    let goal = Conf { tape: sum_tape(a, b, k, k + 1, nq, s, trail), head: p, state: pending_state(b, k, carry) };
    if k < q {
        let at = p + q + 1 - k;
        assert forall|i: int| at < i <= p + q + 1 implies #[trigger] lookup(m, x, t0[i]) == Some(
            Action { next: x, write: t0[i], shift: Move::Left },
        ) by {
            assert(t0[i] == mark(b[i - p - 2]));
        }
        lemma_scan_left(m, t0, x, p + q + 1, at);
        let c1 = Conf { tape: t0, head: at, state: x };
        let d = b[q - 1 - k];
        assert(t0[at] == d);
        let y: nat = if carry == 0 {
            if d == '0' { 14 } else { 15 }
        } else {
            if d == '0' { 29 } else { 30 }
        };
        let t1 = t0.update(at, mark(d));
        let c2 = Conf { tape: t1, head: at - 1, state: y };
        assert(step(m, c1) == Some(c2));
        lemma_reaches_step(m, c1);
        assert forall|i: int| p + 1 < i <= at - 1 implies #[trigger] lookup(m, y, t1[i]) == Some(
            Action { next: y, write: t1[i], shift: Move::Left },
        ) by {
            assert(t1[i] == b[i - p - 2]);
        }
        lemma_scan_left(m, t1, y, at - 1, p + 1);
        let c3 = Conf { tape: t1, head: p + 1, state: y };
        assert(t1.update(p + 1, '+') =~= t1);
        assert(t1 =~= sum_tape(a, b, k, k + 1, nq, s, trail));
        assert(step(m, c3) == Some(goal));
        lemma_reaches_step(m, c3);
        lemma_reaches_trans(m, c0, c1, c2);
        lemma_reaches_trans(m, c0, c2, c3);
        lemma_reaches_trans(m, c0, c3, goal);
    } else {
        assert forall|i: int| p + 1 < i <= p + q + 1 implies #[trigger] lookup(m, x, t0[i]) == Some(
            Action { next: x, write: t0[i], shift: Move::Left },
        ) by {
            assert(t0[i] == mark(b[i - p - 2]));
        }
        lemma_scan_left(m, t0, x, p + q + 1, p + 1);
        let c1 = Conf { tape: t0, head: p + 1, state: x };
        assert(t0.update(p + 1, '+') =~= t0);
        assert(t0 =~= sum_tape(a, b, k, k + 1, nq, s, trail));
        assert(step(m, c1) == Some(goal));
        lemma_reaches_step(m, c1);
        lemma_reaches_trans(m, c0, c1, goal);
    }
}

/// The round reads the first addend's digit of weight `2^k`, or finds it
/// exhausted, and turns right with the total of the digits and the carry.
proof fn lemma_round_first(a: Seq<char>, b: Seq<char>, k: int, nq: int, s: Seq<char>, trail: bool, carry: nat)
    requires
        all_binary(a),
        all_binary(b),
        0 <= k < longer(a, b),
        0 <= nq,
        carry <= 1,
    ensures
        reaches(
            add_model(),
            Conf { tape: sum_tape(a, b, k, k + 1, nq, s, trail), head: a.len() as int, state: pending_state(b, k, carry) },
            Conf {
                tape: sum_tape(a, b, k + 1, k + 1, nq, s, trail),
                head: if k < a.len() { a.len() - k + 1 } else { 1 },
                state: transfer_state(digit_at(a, k) + digit_at(b, k) + carry),
            },
        ),
{
    let m = add_model();
    let p = a.len() as int;
    let q = b.len() as int;
    let t0 = sum_tape(a, b, k, k + 1, nq, s, trail);
    let z = pending_state(b, k, carry);
    let w = transfer_state(digit_at(a, k) + digit_at(b, k) + carry);
    let c0 = Conf { tape: t0, head: p, state: z };
    if k < p {
        let at = p - k;
        assert forall|i: int| at < i <= p implies #[trigger] lookup(m, z, t0[i]) == Some(
            Action { next: z, write: t0[i], shift: Move::Left },
        ) by {
            assert(t0[i] == mark(a[i - 1]));
        }
        lemma_scan_left(m, t0, z, p, at);
        let c1 = Conf { tape: t0, head: at, state: z };
        let e = a[p - 1 - k];
        assert(t0[at] == e);
        let t1 = t0.update(at, mark(e));
        assert(t1 =~= sum_tape(a, b, k + 1, k + 1, nq, s, trail));
        let c2 = Conf { tape: t1, head: at + 1, state: w };
        assert(step(m, c1) == Some(c2));
        lemma_reaches_step(m, c1);
        lemma_reaches_trans(m, c0, c1, c2);
    } else {
        assert forall|i: int| 0 < i <= p implies #[trigger] lookup(m, z, t0[i]) == Some(
            Action { next: z, write: t0[i], shift: Move::Left },
        ) by {
            assert(t0[i] == mark(a[i - 1]));
        }
        lemma_scan_left(m, t0, z, p, 0);
        let c1 = Conf { tape: t0, head: 0, state: z };
        assert(t0.update(0, '_') =~= t0);
        assert(t0 =~= sum_tape(a, b, k + 1, k + 1, nq, s, trail));
        let c2 = Conf { tape: t0, head: 1, state: w };
        assert(step(m, c1) == Some(c2));
        lemma_reaches_step(m, c1);
        lemma_reaches_trans(m, c0, c1, c2);
    }
}

/// The digit of the sum travels to the right end of the tape, where a blank
/// stands, or is added when none stands yet.
proof fn lemma_round_transfer(a: Seq<char>, b: Seq<char>, k: int, nq: int, s: Seq<char>, trail: bool, total: nat, h: int)
    requires
        all_binary(a),
        all_binary(b),
        all_binary(s),
        0 <= k,
        0 < nq,
        total <= 3,
        1 <= h <= a.len() + 1,
    ensures
        reaches(
            add_model(),
            Conf { tape: sum_tape(a, b, k, k, nq, s, trail), head: h, state: transfer_state(total) },
            Conf {
                tape: sum_tape(a, b, k, k, nq, s, true),
                head: a.len() + b.len() + 2 + nq + s.len(),
                state: write_state(total),
            },
        ),
{
    let m = add_model();
    let p = a.len() as int;
    let q = b.len() as int;
    let w = transfer_state(total);
    let v = write_state(total);
    let t0 = sum_tape(a, b, k, k, nq, s, trail);
    let t1 = sum_tape(a, b, k, k, nq, s, true);
    let last = p + q + 2 + nq + s.len();
    let c0 = Conf { tape: t0, head: h, state: w };
    let goal = Conf { tape: t1, head: last, state: v };
    assert forall|i: int| h <= i <= last implies #[trigger] lookup(m, w, t0[i]) == Some(
        Action { next: w, write: t0[i], shift: Move::Right },
    ) by {
        if i < p + 1 {
            assert(t0[i] == a[i - 1] || t0[i] == mark(a[i - 1]));
        } else if p + 1 < i < p + q + 2 {
            assert(t0[i] == b[i - p - 2] || t0[i] == mark(b[i - p - 2]));
        } else if p + q + 2 + nq < i {
            assert(t0[i] == s[i - p - q - 3 - nq]);
        }
    }
    if trail {
        lemma_scan_right(m, t0, w, h, last + 1);
        let c1 = Conf { tape: t0, head: last + 1, state: w };
        assert(t0.update(last + 1, '_') =~= t0);
        assert(step(m, c1) == Some(goal));
        lemma_reaches_step(m, c1);
        lemma_reaches_trans(m, c0, c1, goal);
    } else {
        lemma_scan_right_off_end(m, t0, w, h);
        let c1 = Conf { tape: t0.push('_'), head: last + 1, state: w };
        assert(t0.push('_') =~= t1);
        assert(t1.update(last + 1, '_') =~= t1);
        assert(step(m, c1) == Some(goal));
        lemma_reaches_step(m, c1);
        lemma_reaches_trans(m, c0, c1, goal);
    }
}

/// The digit of the sum is written in the rightmost unknown place, and the
/// machine returns left of `=` with the new carry.
proof fn lemma_round_write(a: Seq<char>, b: Seq<char>, k: int, nq: int, s: Seq<char>, total: nat)
    requires
        all_binary(a),
        all_binary(b),
        all_binary(s),
        0 <= k,
        0 < nq,
        total <= 3,
    ensures
        reaches(
            add_model(),
            Conf { tape: sum_tape(a, b, k, k, nq, s, true), head: a.len() + b.len() + 2 + nq + s.len(), state: write_state(total) },
            Conf {
                tape: sum_tape(a, b, k, k, nq - 1, seq![bit_char(total % 2)] + s, true),
                head: a.len() + b.len() + 1int,
                state: round_state(total / 2),
            },
        ),
{
    let m = add_model();
    let p = a.len() as int;
    let q = b.len() as int;
    let v = write_state(total);
    let u: nat = if total < 2 { 26 } else { 27 };
    let t0 = sum_tape(a, b, k, k, nq, s, true);
    let spot = p + q + 2 + nq;
    let c0 = Conf { tape: t0, head: spot + s.len(), state: v };
    assert forall|i: int| spot < i <= spot + s.len() implies #[trigger] lookup(m, v, t0[i]) == Some(
        Action { next: v, write: t0[i], shift: Move::Left },
    ) by {
        assert(t0[i] == s[i - spot - 1]);
    }
    lemma_scan_left(m, t0, v, spot + s.len(), spot);
    let c1 = Conf { tape: t0, head: spot, state: v };
    assert(t0[spot] == '?');
    let t1 = t0.update(spot, bit_char(total % 2));
    let c2 = Conf { tape: t1, head: spot - 1, state: u };
    assert(step(m, c1) == Some(c2));
    lemma_reaches_step(m, c1);
    assert forall|i: int| p + q + 2 < i <= spot - 1 implies #[trigger] lookup(m, u, t1[i]) == Some(
        Action { next: u, write: t1[i], shift: Move::Left },
    ) by {
        assert(t1[i] == '?');
    }
    lemma_scan_left(m, t1, u, spot - 1, p + q + 2);
    let c3 = Conf { tape: t1, head: p + q + 2, state: u };
    let t2 = sum_tape(a, b, k, k, nq - 1, seq![bit_char(total % 2)] + s, true);
    assert(t1 =~= t2);
    assert(t1.update(p + q + 2, '=') =~= t1);
    let goal = Conf { tape: t2, head: p + q + 1, state: round_state(total / 2) };
    assert(step(m, c3) == Some(goal));
    lemma_reaches_step(m, c3);
    lemma_reaches_trans(m, c0, c1, c2);
    lemma_reaches_trans(m, c0, c2, c3);
    lemma_reaches_trans(m, c0, c3, goal);
}

/// One round of the addition: the digits of weight `2^k` and the carry give the
/// sum's digit of that weight, written left of the digits found so far.
proof fn lemma_round(a: Seq<char>, b: Seq<char>, k: nat)
    requires
        all_binary(a),
        all_binary(b),
        k < longer(a, b),
    ensures
        reaches(
            add_model(),
            Conf {
                tape: sum_tape(a, b, k as int, k as int, longer(a, b) + 1 - k, low_sum_digits(a, b, k), k > 0),
                head: a.len() + b.len() + 1int,
                state: round_state(carry_in(a, b, k)),
            },
            Conf {
                tape: sum_tape(a, b, k + 1int, k + 1int, longer(a, b) - k, low_sum_digits(a, b, k + 1), true),
                head: a.len() + b.len() + 1int,
                state: round_state(carry_in(a, b, k + 1)),
            },
        ),
{
    let m = add_model();
    let p = a.len() as int;
    let q = b.len() as int;
    let nq = longer(a, b) + 1 - k;
    let sk = low_sum_digits(a, b, k);
    let carry = carry_in(a, b, k);
    let trail = k > 0;
    lemma_carry_is_bit(a, b, k);
    lemma_low_sum_digits(a, b, k);
    let total = digit_at(a, k as int) + digit_at(b, k as int) + carry;
    let c0 = Conf { tape: sum_tape(a, b, k as int, k as int, nq, sk, trail), head: p + q + 1, state: round_state(carry) };
    lemma_round_second(a, b, k as int, nq, sk, trail, carry);
    let c1 = Conf { tape: sum_tape(a, b, k as int, k + 1int, nq, sk, trail), head: p, state: pending_state(b, k as int, carry) };
    lemma_round_first(a, b, k as int, nq, sk, trail, carry);
    let h = if k < p { p - k + 1 } else { 1 };
    let c2 = Conf { tape: sum_tape(a, b, k + 1int, k + 1int, nq, sk, trail), head: h, state: transfer_state(total) };
    lemma_round_transfer(a, b, k + 1int, nq, sk, trail, total, h);
    let c3 = Conf { tape: sum_tape(a, b, k + 1int, k + 1int, nq, sk, true), head: p + q + 2 + nq + sk.len(), state: write_state(total) };
    lemma_round_write(a, b, k + 1int, nq, sk, total);
    let c4 = Conf {
        tape: sum_tape(a, b, k + 1int, k + 1int, nq - 1, seq![bit_char(total % 2)] + sk, true),
        head: p + q + 1,
        state: round_state(total / 2),
    };
    assert(low_sum_digits(a, b, k + 1) == seq![bit_char(total % 2)] + sk);
    assert(carry_in(a, b, k + 1) == total / 2);
    lemma_reaches_trans(m, c0, c1, c2);
    lemma_reaches_trans(m, c0, c2, c3);
    lemma_reaches_trans(m, c0, c3, c4);
}

/// The rounds from `k` on, until both addends are exhausted.
proof fn lemma_rounds(a: Seq<char>, b: Seq<char>, k: nat)
    requires
        all_binary(a),
        all_binary(b),
        k <= longer(a, b),
    ensures
        reaches(
            add_model(),
            Conf {
                tape: sum_tape(a, b, k as int, k as int, longer(a, b) + 1 - k, low_sum_digits(a, b, k), k > 0),
                head: a.len() + b.len() + 1int,
                state: round_state(carry_in(a, b, k)),
            },
            Conf {
                tape: sum_tape(a, b, longer(a, b), longer(a, b), 1, low_sum_digits(a, b, longer(a, b) as nat), k > 0 || longer(a, b) > 0),
                head: a.len() + b.len() + 1int,
                state: round_state(carry_in(a, b, longer(a, b) as nat)),
            },
        ),
    decreases longer(a, b) - k,
{
    let m = add_model();
    let c0 = Conf {
        tape: sum_tape(a, b, k as int, k as int, longer(a, b) + 1 - k, low_sum_digits(a, b, k), k > 0),
        head: a.len() + b.len() + 1int,
        state: round_state(carry_in(a, b, k)),
    };
    if k < longer(a, b) {
        lemma_round(a, b, k);
        lemma_rounds(a, b, k + 1);
        let c1 = Conf {
            tape: sum_tape(a, b, k + 1int, k + 1int, longer(a, b) - k, low_sum_digits(a, b, k + 1), true),
            head: a.len() + b.len() + 1int,
            state: round_state(carry_in(a, b, k + 1)),
        };
        assert(longer(a, b) + 1 - (k + 1) == longer(a, b) - k);
        lemma_reaches_trans(
            m,
            c0,
            c1,
            Conf {
                tape: sum_tape(a, b, longer(a, b), longer(a, b), 1, low_sum_digits(a, b, longer(a, b) as nat), true),
                head: a.len() + b.len() + 1int,
                state: round_state(carry_in(a, b, longer(a, b) as nat)),
            },
        );
    } else {
        lemma_reaches_refl(m, c0);
    }
}

/// The tape the adding machine leaves: the blank it added, `a+b=`, the digits of
/// the sum and a blank.
pub open spec fn addition_output(a: Seq<char>, b: Seq<char>) -> Seq<char> {
    seq!['_'] + a + seq!['+'] + b + seq!['='] + sum_digits(a, b) + seq!['_']
}

/// The cell rewriting of state 21: unmark digits and turn the unknown digit
/// left into a `0`.
pub open spec fn settle(c: char) -> char {
    if c == '?' {
        '0'
    } else {
        unmark(c)
    }
}

/// The halting head of the adding machine: at the right blank without a final
/// carry, on `=` with one.
pub open spec fn halting_head(a: Seq<char>, b: Seq<char>) -> int {
    if carry_in(a, b, longer(a, b) as nat) == 0 {
        addition_output(a, b).len() - 1
    } else {
        a.len() + b.len() + 2int
    }
}

/// No final carry: state 21 unmarks the addends on its way right, turns the
/// unknown digit left into `0` and halts on the blank at the right end.
proof fn lemma_settle(a: Seq<char>, b: Seq<char>)
    requires
        all_binary(a),
        all_binary(b),
        0 < longer(a, b),
        carry_in(a, b, longer(a, b) as nat) == 0,
    ensures
        reaches(
            add_model(),
            Conf {
                tape: sum_tape(a, b, longer(a, b), longer(a, b), 1, low_sum_digits(a, b, longer(a, b) as nat), true),
                head: 1,
                state: 21,
            },
            Conf { tape: addition_output(a, b), head: halting_head(a, b), state: 0 },
        ),
{
    let m = add_model();
    let p = a.len() as int;
    let q = b.len() as int;
    let big = longer(a, b);
    let sd = low_sum_digits(a, b, big as nat);
    lemma_low_sum_digits(a, b, big as nat);
    let t0 = sum_tape(a, b, big, big, 1, sd, true);
    let end = t0.len() - 1;
    assert forall|i: int| 1 <= i < end implies #[trigger] lookup(m, 21, t0[i]) == Some(
        Action { next: 21, write: settle(t0[i]), shift: Move::Right },
    ) by {
        if i < p + 1 {
            assert(t0[i] == mark(a[i - 1]));
        } else if p + 1 < i < p + q + 2 {
            assert(t0[i] == mark(b[i - p - 2]));
        } else if p + q + 3 < i {
            assert(t0[i] == sd[i - p - q - 4]);
        }
    }
    lemma_sweep_right(m, t0, 21, 1, end, |c: char| settle(c));
    let t1 = rewritten(t0, 1, end, |c: char| settle(c));
    assert(t1 =~= addition_output(a, b));
    let c0 = Conf { tape: t0, head: 1, state: 21 };
    let c1 = Conf { tape: t1, head: end, state: 21 };
    let c2 = Conf { tape: t1, head: end, state: 0 };
    assert(t1.update(end, '_') =~= t1);
    assert(step(m, c1) == Some(c2));
    lemma_reaches_step(m, c1);
    lemma_reaches_trans(m, c0, c1, c2);
}

/// A final carry: state 34 unmarks the addends, states 36 to 39 write `1` in
/// the last unknown place and halt on `=`.
proof fn lemma_settle_carry(a: Seq<char>, b: Seq<char>)
    requires
        all_binary(a),
        all_binary(b),
        0 < longer(a, b),
        carry_in(a, b, longer(a, b) as nat) == 1,
    ensures
        reaches(
            add_model(),
            Conf {
                tape: sum_tape(a, b, longer(a, b), longer(a, b), 1, low_sum_digits(a, b, longer(a, b) as nat), true),
                head: 1,
                state: 34,
            },
            Conf { tape: addition_output(a, b), head: halting_head(a, b), state: 0 },
        ),
{
    let m = add_model();
    let p = a.len() as int;
    let q = b.len() as int;
    let big = longer(a, b);
    let sd = low_sum_digits(a, b, big as nat);
    lemma_low_sum_digits(a, b, big as nat);
    let t0 = sum_tape(a, b, big, big, 1, sd, true);
    assert forall|i: int| 1 <= i < p + q + 2 implies #[trigger] lookup(m, 34, t0[i]) == Some(
        Action { next: 34, write: unmark(t0[i]), shift: Move::Right },
    ) by {
        if i < p + 1 {
            assert(t0[i] == mark(a[i - 1]));
        } else if p + 1 < i {
            assert(t0[i] == mark(b[i - p - 2]));
        }
    }
    lemma_sweep_right(m, t0, 34, 1, p + q + 2, |c: char| unmark(c));
    let t1 = rewritten(t0, 1, p + q + 2, |c: char| unmark(c));
    let c0 = Conf { tape: t0, head: 1, state: 34 };
    let c1 = Conf { tape: t1, head: p + q + 2, state: 34 };
    let c2 = Conf { tape: t1, head: p + q + 3, state: 36 };
    assert(t1[p + q + 2] == '=');
    assert(t1.update(p + q + 2, '=') =~= t1);
    assert(step(m, c1) == Some(c2));
    lemma_reaches_step(m, c1);
    let c3 = Conf { tape: t1, head: p + q + 4, state: 36 };
    assert(t1[p + q + 3] == '?');
    assert(t1.update(p + q + 3, '?') =~= t1);
    assert(step(m, c2) == Some(c3));
    lemma_reaches_step(m, c2);
    let c4 = Conf { tape: t1, head: p + q + 3, state: 38 };
    assert(t1[p + q + 4] == sd[0]);
    assert(t1.update(p + q + 4, sd[0]) =~= t1);
    assert(step(m, c3) == Some(c4));
    lemma_reaches_step(m, c3);
    let t2 = t1.update(p + q + 3, '1');
    let c5 = Conf { tape: t2, head: p + q + 2, state: 39 };
    assert(step(m, c4) == Some(c5));
    lemma_reaches_step(m, c4);
    assert(t2 =~= addition_output(a, b));
    let c6 = Conf { tape: t2, head: p + q + 2, state: 0 };
    assert(t2.update(p + q + 2, '=') =~= t2);
    assert(step(m, c5) == Some(c6));
    lemma_reaches_step(m, c5);
    lemma_reaches_trans(m, c0, c1, c2);
    lemma_reaches_trans(m, c0, c2, c3);
    lemma_reaches_trans(m, c0, c3, c4);
    lemma_reaches_trans(m, c0, c4, c5);
    lemma_reaches_trans(m, c0, c5, c6);
}

/// Both addends are exhausted: the machine walks to the left blank, then
/// settles the sum and halts.
proof fn lemma_finish(a: Seq<char>, b: Seq<char>)
    requires
        all_binary(a),
        all_binary(b),
        0 < longer(a, b),
    ensures
        reaches(
            add_model(),
            Conf {
                tape: sum_tape(a, b, longer(a, b), longer(a, b), 1, low_sum_digits(a, b, longer(a, b) as nat), true),
                head: a.len() + b.len() + 1int,
                state: round_state(carry_in(a, b, longer(a, b) as nat)),
            },
            Conf { tape: addition_output(a, b), head: halting_head(a, b), state: 0 },
        ),
{
    let m = add_model();
    let p = a.len() as int;
    let q = b.len() as int;
    let big = longer(a, b);
    let sd = low_sum_digits(a, b, big as nat);
    let carry = carry_in(a, b, big as nat);
    lemma_carry_is_bit(a, b, big as nat);
    let t0 = sum_tape(a, b, big, big, 1, sd, true);
    let c0 = Conf { tape: t0, head: p + q + 1, state: round_state(carry) };
    lemma_round_second(a, b, big, 1, sd, true, carry);
    let z = pending_state(b, big, carry);
    assert(sum_tape(a, b, big, big + 1, 1, sd, true) =~= t0);
    let c1 = Conf { tape: t0, head: p, state: z };
    assert forall|i: int| 0 < i <= p implies #[trigger] lookup(m, z, t0[i]) == Some(
        Action { next: z, write: t0[i], shift: Move::Left },
    ) by {
        assert(t0[i] == mark(a[i - 1]));
    }
    lemma_scan_left(m, t0, z, p, 0);
    let c2 = Conf { tape: t0, head: 0, state: z };
    let fin: nat = if carry == 0 { 21 } else { 34 };
    let c3 = Conf { tape: t0, head: 1, state: fin };
    assert(t0.update(0, '_') =~= t0);
    assert(step(m, c2) == Some(c3));
    lemma_reaches_step(m, c2);
    lemma_reaches_trans(m, c0, c1, c2);
    lemma_reaches_trans(m, c0, c2, c3);
    let f = Conf { tape: addition_output(a, b), head: halting_head(a, b), state: 0 };
    if carry == 0 {
        lemma_settle(a, b);
    } else {
        lemma_settle_carry(a, b);
    }
    lemma_reaches_trans(m, c0, c3, f);
}

/// The adding machine halts on `a+b=` followed by a blank, and leaves the digits
/// of the sum after `=`.
pub proof fn lemma_add_machine_halts(a: Seq<char>, b: Seq<char>)
    requires
        all_binary(a),
        all_binary(b),
        0 < a.len(),
        0 < b.len(),
    ensures
        halts_with(add_model(), start_conf(addition_input(a, b)), addition_output(a, b)),
{
    let m = add_model();
    let p = a.len() as int;
    let q = b.len() as int;
    let big = longer(a, b);
    let c0 = start_conf(addition_input(a, b));
    lemma_layout(a, b);
    let c1 = Conf { tape: layout_tape(a, b, 1, 0, 0, big + 1), head: p + q + 1, state: 13 };
    assert(layout_tape(a, b, 1, 0, 0, big + 1) =~= sum_tape(a, b, 0, 0, big + 1, low_sum_digits(a, b, 0), false));
    lemma_rounds(a, b, 0);
    let c2 = Conf {
        tape: sum_tape(a, b, big, big, 1, low_sum_digits(a, b, big as nat), true),
        head: p + q + 1,
        state: round_state(carry_in(a, b, big as nat)),
    };
    lemma_finish(a, b);
    let f = Conf { tape: addition_output(a, b), head: halting_head(a, b), state: 0 };
    lemma_reaches_trans(m, c0, c1, c2);
    lemma_reaches_trans(m, c0, c2, f);
    lemma_reaches_halt(m, c0, f);
}

/// The value of a binary numeral, most significant digit first.
pub open spec fn binary_value(s: Seq<char>) -> nat
    decreases s.len(),
{
    if s.len() == 0 {
        0
    } else {
        2 * binary_value(s.drop_last()) + digit_value(s.last())
    }
}

/// `2^k`.
pub open spec fn weight(k: nat) -> nat
    decreases k,
{
    if k == 0 {
        1
    } else {
        2 * weight((k - 1) as nat)
    }
}

/// The value of the `k` least significant digits of `s`.
pub open spec fn low_value(s: Seq<char>, k: nat) -> nat
    decreases k,
{
    if k == 0 {
        0
    } else {
        low_value(s, (k - 1) as nat) + digit_at(s, k - 1) * weight((k - 1) as nat)
    }
}

proof fn lemma_value_prepend(d: char, s: Seq<char>)
    ensures
        binary_value(seq![d] + s) == digit_value(d) * weight(s.len()) + binary_value(s),
    decreases s.len(),
{
    let x = digit_value(d);
    if s.len() > 0 {
        let rest = s.drop_last();
        lemma_value_prepend(d, rest);
        assert((seq![d] + s).drop_last() =~= seq![d] + rest);
        assert((seq![d] + s).last() == s.last());
        let w = weight(rest.len());
        assert(weight(s.len()) == 2 * w);
        assert(binary_value(s) == 2 * binary_value(rest) + digit_value(s.last()));
        assert(binary_value(seq![d] + s) == 2 * binary_value(seq![d] + rest) + digit_value(s.last()));
        assert(binary_value(seq![d] + rest) == x * w + binary_value(rest));
        assert(2 * (x * w) == x * (2 * w)) by (nonlinear_arith);
    } else {
        assert((seq![d] + s).drop_last() =~= Seq::<char>::empty());
        assert((seq![d] + s).last() == d);
        assert(binary_value(seq![d] + s) == 2 * binary_value(Seq::<char>::empty()) + x);
        assert(weight(0) == 1);
        assert(x * 1 == x);
    }
}

proof fn lemma_low_value_shift(s: Seq<char>, k: nat)
    requires
        s.len() > 0,
    ensures
        low_value(s, k + 1) == digit_at(s, 0) + 2 * low_value(s.drop_last(), k),
    decreases k,
{
    let rest = s.drop_last();
    if k > 0 {
        lemma_low_value_shift(s, (k - 1) as nat);
        assert(digit_at(s, k as int) == digit_at(rest, k - 1));
        let x = digit_at(rest, k - 1);
        let w = weight((k - 1) as nat);
        assert(weight(k) == 2 * w);
        assert(low_value(s, k + 1) == low_value(s, k) + x * weight(k));
        assert(low_value(rest, k) == low_value(rest, (k - 1) as nat) + x * w);
        assert(x * (2 * w) == 2 * (x * w)) by (nonlinear_arith);
    } else {
        let x = digit_at(s, 0);
        assert(weight(0) == 1);
        assert(x * 1 == x);
        assert(low_value(s, 1) == low_value(s, 0) + x * weight(0));
    }
}

proof fn lemma_low_value_full(s: Seq<char>, k: nat)
    requires
        k >= s.len(),
    ensures
        low_value(s, k) == binary_value(s),
    decreases k,
{
    if k > s.len() {
        lemma_low_value_full(s, (k - 1) as nat);
        assert(digit_at(s, k - 1) == 0);
        assert(low_value(s, k) == low_value(s, (k - 1) as nat) + 0 * weight((k - 1) as nat));
    } else if k > 0 {
        lemma_low_value_shift(s, (k - 1) as nat);
        lemma_low_value_full(s.drop_last(), (k - 1) as nat);
        assert(digit_at(s, 0) == digit_value(s.last()));
        assert(binary_value(s) == 2 * binary_value(s.drop_last()) + digit_value(s.last()));
    }
}

proof fn lemma_partial_sum(a: Seq<char>, b: Seq<char>, k: nat)
    ensures
        binary_value(low_sum_digits(a, b, k)) + carry_in(a, b, k) * weight(k) == low_value(a, k)
            + low_value(b, k),
    decreases k,
{
    if k > 0 {
        let j = (k - 1) as nat;
        lemma_partial_sum(a, b, j);
        lemma_low_sum_digits(a, b, j);
        lemma_carry_is_bit(a, b, j);
        let rest = low_sum_digits(a, b, j);
        let da = digit_at(a, j as int);
        let db = digit_at(b, j as int);
        let c = carry_in(a, b, j);
        let total = da + db + c;
        lemma_value_prepend(bit_char(total % 2), rest);
        let w = weight(j);
        assert(weight(k) == 2 * w);
        assert(digit_value(bit_char(total % 2)) == total % 2);
        assert(carry_in(a, b, k) == total / 2);
        assert(low_sum_digits(a, b, k) == seq![bit_char(total % 2)] + rest);
        assert(low_value(a, k) == low_value(a, j) + da * w);
        assert(low_value(b, k) == low_value(b, j) + db * w);
        assert((total % 2) * w + (total / 2) * (2 * w) == total * w) by (nonlinear_arith)
            requires
                total <= 3,
        ;
        assert((da + db + c) * w == da * w + db * w + c * w) by (nonlinear_arith);
        assert(rest.len() == j);
        assert(binary_value(low_sum_digits(a, b, k)) == (total % 2) * w + binary_value(rest));
        assert(binary_value(rest) + c * w == low_value(a, j) + low_value(b, j));
        assert(carry_in(a, b, k) * weight(k) == (total / 2) * (2 * w));
    } else {
        assert(weight(0) == 1);
        assert(carry_in(a, b, 0) == 0);
        assert(low_sum_digits(a, b, 0) =~= Seq::<char>::empty());
        assert(binary_value(low_sum_digits(a, b, 0)) == 0);
    }
}

/// The digits the adding machine writes are the binary numeral of the sum of its
/// two arguments, with one digit more than the longer argument.
pub proof fn lemma_sum_digits_value(a: Seq<char>, b: Seq<char>)
    ensures
        binary_value(sum_digits(a, b)) == binary_value(a) + binary_value(b),
        sum_digits(a, b).len() == longer(a, b) + 1,
        all_binary(sum_digits(a, b)),
{
    let n = longer(a, b) as nat;
    lemma_partial_sum(a, b, n);
    lemma_low_sum_digits(a, b, n);
    lemma_carry_is_bit(a, b, n);
    lemma_value_prepend(bit_char(carry_in(a, b, n)), low_sum_digits(a, b, n));
    lemma_low_value_full(a, n);
    lemma_low_value_full(b, n);
    let all = sum_digits(a, b);
    let rest = low_sum_digits(a, b, n);
    assert forall|i: int| 0 <= i < all.len() implies crate::digits::is_binary_digit(#[trigger] all[i]) by {
        if i > 0 {
            assert(all[i] == rest[i - 1]);
        }
    }
}

/// Swapping the addends changes none of the digits of the sum.
pub proof fn lemma_sum_digits_symmetric(a: Seq<char>, b: Seq<char>)
    ensures
        sum_digits(a, b) == sum_digits(b, a),
{
    let n = longer(a, b) as nat;
    assert(longer(a, b) == longer(b, a));
    lemma_carry_symmetric(a, b, n);
    lemma_low_sum_digits_symmetric(a, b, n);
}

proof fn lemma_carry_symmetric(a: Seq<char>, b: Seq<char>, k: nat)
    ensures
        carry_in(a, b, k) == carry_in(b, a, k),
    decreases k,
{
    if k > 0 {
        lemma_carry_symmetric(a, b, (k - 1) as nat);
    }
}

proof fn lemma_low_sum_digits_symmetric(a: Seq<char>, b: Seq<char>, k: nat)
    ensures
        low_sum_digits(a, b, k) == low_sum_digits(b, a, k),
    decreases k,
{
    if k > 0 {
        lemma_low_sum_digits_symmetric(a, b, (k - 1) as nat);
        lemma_carry_symmetric(a, b, (k - 1) as nat);
    }
}

} // verus!
