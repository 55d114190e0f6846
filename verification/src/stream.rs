//! A sliding window over a stream of samples.
//!
//! The window is `width` samples wide and advances by `jump` samples.  It is
//! kept as `width / jump` rows; row `i` starts `jump * i` samples after row 0,
//! so every incoming sample is written into each row that has already started.
//! When the current window is complete, the rows are rotated so that row 0
//! becomes the last row, which is handed out, and the next window begins
//! `jump` samples later.  The first window is always the first `width`
//! samples read; later windows are the latest `width` samples read when
//! `jump` divides `width` (`law_windows_latest`).  Otherwise the row that
//! moves to the end keeps `width % jump` stale samples at its start, and
//! `law_window_exact` says which: for every `jump`, each window handed out
//! is given sample by sample in terms of the samples read.
use vstd::prelude::*;
use vstd::arithmetic::div_mod::{
    lemma_fundamental_div_mod, lemma_fundamental_div_mod_converse, lemma_mod_add_multiples_vanish,
    lemma_mod_bound, lemma_mod_pos_bound, lemma_small_mod,
};

verus! {

/// The mathematical state of a [`Rotation`].
pub struct RotationModel<S> {
    pub jump: nat,
    pub width: nat,
    pub rows: Seq<Seq<S>>,
    /// Number of samples of the current window received so far.
    pub pos: nat,
}

impl<S> RotationModel<S> {
    /// The rows have been allocated: `width / jump` rows of `width` samples,
    /// and no more than a full window has been received.
    pub open spec fn is_filled(self) -> bool {
        &&& self.jump >= 1
        &&& self.jump <= self.width
        &&& self.rows.len() == self.width / self.jump
        &&& forall|i: int| 0 <= i < self.rows.len() ==> #[trigger] self.rows[i].len() == self.width
        &&& self.pos <= self.width
    }

    /// No rows yet, and nothing received.
    pub open spec fn is_fresh(self) -> bool {
        self.rows.len() == 0 && self.pos == 0
    }

    /// One sample appended: it goes into every row that has started, at
    /// that row's position, and the window position advances by one.
    pub open spec fn append_one(self, sample: S) -> RotationModel<S> {
        RotationModel {
            jump: self.jump,
            width: self.width,
            rows: Seq::new(
                self.rows.len(),
                |i: int|
                    if self.pos >= self.jump * i {
                        self.rows[i].update(self.pos - self.jump * i, sample)
                    } else {
                        self.rows[i]
                    },
            ),
            pos: self.pos + 1,
        }
    }

    /// The samples `s` appended one after another: row `i` receives
    /// `s[t]` at index `pos + t - jump * i` whenever that index is not negative.
    pub open spec fn append_all(self, s: Seq<S>) -> RotationModel<S> {
        RotationModel {
            jump: self.jump,
            width: self.width,
            rows: Seq::new(
                self.rows.len(),
                |i: int|
                    Seq::new(
                        self.rows[i].len(),
                        |k: int|
                            if self.pos <= k + self.jump * i < self.pos + s.len() {
                                s[k + self.jump * i - self.pos]
                            } else {
                                self.rows[i][k]
                            },
                    ),
            ),
            pos: self.pos + s.len(),
        }
    }
}

impl<S> RotationModel<S> {
    /// Row 0 moves to the end and the window position steps back by `jump`.
    pub open spec fn rotate_once(self) -> RotationModel<S> {
        RotationModel {
            jump: self.jump,
            width: self.width,
            rows: self.rows.drop_first().push(self.rows[0]),
            pos: (self.pos - self.jump) as nat,
        }
    }

    /// `width / jump` rows of `width` copies of `val` added after the rows.
    pub open spec fn with_rows_of(self, val: S) -> RotationModel<S> {
        RotationModel {
            jump: self.jump,
            width: self.width,
            rows: self.rows + Seq::new(
                self.width / self.jump,
                |i: int| Seq::new(self.width, |k: int| val),
            ),
            pos: self.pos,
        }
    }
}

impl<S> RotationModel<S> {
    /// The first window: rows allocated and filled with `samples[0]`, the
    /// first `width` samples appended, then one rotation.
    pub open spec fn first_window_of(self, samples: Seq<S>) -> RotationModel<S> {
        self.with_rows_of(samples[0]).append_all(samples.take(self.width as int)).rotate_once()
    }

    /// The samples `samples[..count]` appended; if that completes the
    /// window, one rotation follows.
    pub open spec fn after_push(self, samples: Seq<S>, count: nat) -> RotationModel<S> {
        let a = self.append_all(samples.take(count as int));
        if a.pos == self.width {
            a.rotate_once()
        } else {
            a
        }
    }

    /// The window handed out: the last row.
    pub open spec fn window(self) -> Seq<S> {
        self.rows.last()
    }
}

impl<S> RotationModel<S> {
    /// Every row holds the part of `recent` (the samples of the current
    /// window, received so far) that falls inside it: row `i` at index `j`
    /// holds `recent[jump * i + j]`.
    pub open spec fn holds_recent(self, recent: Seq<S>) -> bool {
        &&& recent.len() == self.pos
        &&& forall|i: int, j: int|
            0 <= i < self.rows.len() && 0 <= j && self.jump * i + j < self.pos
                ==> #[trigger] self.rows[i][j] == recent[self.jump * i + j]
    }

    /// The rotation is in step with `history`, all samples received so far:
    /// its rows hold the last `pos` of them.
    pub open spec fn follows(self, history: Seq<S>) -> bool {
        &&& history.len() >= self.pos
        &&& self.holds_recent(history.subrange(history.len() - self.pos, history.len() as int))
    }
}

/// A window of at least one jump has at least one row.
proof fn lemma_one_row_at_least(jump: nat, width: nat)
    requires
        1 <= jump <= width,
    ensures
        width / jump >= 1,
{
    assert(width / jump >= 1) by (nonlinear_arith)
        requires
            1 <= jump <= width,
    ;
}

/// Appending no samples changes nothing.
proof fn lemma_append_nothing<S>(m: RotationModel<S>, s: Seq<S>)
    requires
        s.len() == 0,
    ensures
        m.append_all(s) == m,
{
    assert forall|i: int| 0 <= i < m.rows.len() implies #[trigger] m.append_all(s).rows[i]
        == m.rows[i] by {
        assert(m.append_all(s).rows[i] =~= m.rows[i]);
    }
    assert(m.append_all(s).rows =~= m.rows);
}

/// Appending `s` extends what the rows hold by `s`.
proof fn lemma_append_all_recent<S>(m: RotationModel<S>, recent: Seq<S>, s: Seq<S>)
    requires
        m.is_filled(),
        m.holds_recent(recent),
        m.pos + s.len() <= m.width,
    ensures
        m.append_all(s).holds_recent(recent + s),
{
    let a = m.append_all(s);
    assert forall|i: int, j: int|
        0 <= i < a.rows.len() && 0 <= j && a.jump * i + j < a.pos implies #[trigger] a.rows[i][j]
        == (recent + s)[a.jump * i + j] by {
        assert(m.rows[i].len() == m.width);
        assert(m.jump * i >= 0) by (nonlinear_arith)
            requires
                i >= 0,
        ;
    }
}

/// With the whole window received, row 0 holds all of it.
proof fn lemma_full_row<S>(a: RotationModel<S>, full: Seq<S>)
    requires
        a.is_filled(),
        a.pos == a.width,
        a.holds_recent(full),
    ensures
        a.rows.len() >= 1,
        a.rows[0] == full,
{
    lemma_one_row_at_least(a.jump, a.width);
    assert forall|j: int| 0 <= j < full.len() implies #[trigger] a.rows[0][j] == full[j] by {
        assert(a.rows[0][j] == full[a.jump * 0 + j]);
    }
    assert(a.rows[0].len() == a.width);
    assert(a.rows[0] =~= full);
}

/// When `jump` divides `width`, rotating after a full window leaves the
/// rows holding that window without its first `jump` samples.
proof fn lemma_rotate_recent<S>(a: RotationModel<S>, full: Seq<S>)
    requires
        a.is_filled(),
        a.pos == a.width,
        a.holds_recent(full),
        a.width % a.jump == 0,
    ensures
        a.rotate_once().holds_recent(full.skip(a.jump as int)),
{
    let n = a.rows.len();
    let r = a.rotate_once();
    assert(a.jump * n == a.width) by (nonlinear_arith)
        requires
            n == a.width / a.jump,
            a.width % a.jump == 0,
            a.jump >= 1,
    ;
    lemma_one_row_at_least(a.jump, a.width);
    assert forall|k: int, j: int|
        0 <= k < r.rows.len() && 0 <= j && r.jump * k + j < r.pos implies #[trigger] r.rows[k][j]
        == full.skip(a.jump as int)[r.jump * k + j] by {
        assert(a.jump * (k + 1) == a.jump * k + a.jump) by (nonlinear_arith);
        if k < n - 1 {
            assert(r.rows[k] == a.rows[k + 1]);
            assert(a.rows[k + 1][j] == full[a.jump * (k + 1) + j]);
        } else {
            assert(a.jump * k == a.jump * (n - 1));
            assert(a.jump * (n - 1) == a.jump * n - a.jump) by (nonlinear_arith);
            assert(false);
        }
    }
}

/// Law: the first window handed out is exactly the first `width` samples
/// read, and from then on the next window needs `jump` more samples.  When
/// `jump` divides `width`, the rotation is in step with what was read.
pub proof fn law_first_window<S>(m: RotationModel<S>, samples: Seq<S>)
    requires
        m.is_fresh(),
        m.jump >= 1,
        m.jump <= m.width,
        samples.len() >= m.width,
    ensures
        m.first_window_of(samples).window() == samples.take(m.width as int),
        m.first_window_of(samples).pos == m.width - m.jump,
        m.width % m.jump == 0 ==> m.first_window_of(samples).follows(samples.take(m.width as int)),
{
    let m0 = m.with_rows_of(samples[0]);
    let full = samples.take(m.width as int);
    assert(m0.is_filled()) by {
        assert forall|i: int| 0 <= i < m0.rows.len() implies #[trigger] m0.rows[i].len()
            == m0.width by {}
    }
    assert(m0.holds_recent(Seq::<S>::empty()));
    lemma_append_all_recent(m0, Seq::<S>::empty(), full);
    assert(Seq::<S>::empty() + full =~= full);
    let a = m0.append_all(full);
    lemma_full_row(a, full);
    assert(a.rows.len() >= 1);
    assert(a.rotate_once().rows.last() == a.rows[0]);
    if m.width % m.jump == 0 {
        lemma_rotate_recent(a, full);
        assert(full.subrange(full.len() - (m.width - m.jump), full.len() as int) =~= full.skip(
            m.jump as int,
        ));
    }
}

/// Law: once the rotation is in step with `history` and `jump` divides
/// `width`, pushing more samples keeps it in step with the extended history;
/// whenever that completes a window, the window handed out is the last
/// `width` samples of the extended history, and the next window needs
/// `jump` more samples.
pub proof fn law_push_window<S>(m: RotationModel<S>, history: Seq<S>, samples: Seq<S>, count: nat)
    requires
        m.is_filled(),
        m.follows(history),
        m.width % m.jump == 0,
        count <= m.width - m.pos,
        samples.len() >= count,
    ensures
        ({
            let h = history + samples.take(count as int);
            let m2 = m.after_push(samples, count);
            &&& m2.follows(h)
            &&& m.pos + count == m.width ==> {
                &&& m2.window() == h.subrange(h.len() - m.width, h.len() as int)
                &&& m2.pos == m.width - m.jump
            }
        }),
{
    let s = samples.take(count as int);
    let h = history + s;
    let recent = history.subrange(history.len() - m.pos, history.len() as int);
    lemma_append_all_recent(m, recent, s);
    let a = m.append_all(s);
    assert(recent + s =~= h.subrange(h.len() - a.pos, h.len() as int));
    if m.pos + count == m.width {
        let full = recent + s;
        lemma_full_row(a, full);
        lemma_rotate_recent(a, full);
        assert(a.rotate_once().rows.last() == a.rows[0]);
        assert(full.skip(m.jump as int) =~= h.subrange(
            h.len() - (m.width - m.jump),
            h.len() as int,
        ));
    }
}

/// A filled rotation with room for one more sample meets what `append` needs.
proof fn lemma_filled_can_append<S>(m: RotationModel<S>)
    requires
        m.is_filled(),
        m.pos < m.width,
        m.width <= usize::MAX,
    ensures
        m.pos < usize::MAX,
        forall|i: int|
            0 <= i < m.rows.len() && m.jump * i <= m.pos ==> m.pos - m.jump * i
                < #[trigger] m.rows[i].len(),
        forall|i: int|
            1 <= i < m.rows.len() && m.jump * (i - 1) <= m.pos ==> #[trigger] (m.jump * i)
                <= usize::MAX,
{
    assert forall|i: int| 1 <= i < m.rows.len() && m.jump * (i - 1) <= m.pos implies #[trigger] (
    m.jump * i) <= usize::MAX by {
        assert(m.jump * i <= m.width) by (nonlinear_arith)
            requires
                i < m.rows.len(),
                m.rows.len() == m.width / m.jump,
                m.jump >= 1,
        ;
    }
}

/// The rows keep their lengths under `append_all` and `rotate_once`.
proof fn lemma_append_all_filled<S>(m: RotationModel<S>, s: Seq<S>)
    requires
        m.is_filled(),
        m.pos + s.len() <= m.width,
    ensures
        m.append_all(s).is_filled(),
{
    let a = m.append_all(s);
    assert forall|i: int| 0 <= i < a.rows.len() implies #[trigger] a.rows[i].len() == a.width by {
        assert(m.rows[i].len() == m.width);
    }
}

proof fn lemma_rotate_filled<S>(a: RotationModel<S>)
    requires
        a.is_filled(),
        a.pos >= a.jump,
    ensures
        a.rotate_once().is_filled(),
{
    lemma_one_row_at_least(a.jump, a.width);
    let r = a.rotate_once();
    assert forall|i: int| 0 <= i < r.rows.len() implies #[trigger] r.rows[i].len() == r.width by {
        if i < a.rows.len() - 1 {
            assert(r.rows[i] == a.rows[i + 1]);
        } else {
            assert(r.rows[i] == a.rows[0]);
        }
    }
}

/// The first window leaves a filled rotation `jump` samples short of the
/// next window.
proof fn lemma_first_window_filled<S>(m: RotationModel<S>, samples: Seq<S>)
    requires
        m.is_fresh(),
        1 <= m.jump <= m.width,
        samples.len() >= m.width,
    ensures
        m.first_window_of(samples).is_filled(),
        m.first_window_of(samples).jump == m.jump,
        m.first_window_of(samples).width == m.width,
        m.first_window_of(samples).pos == m.width - m.jump,
{
    let m0 = m.with_rows_of(samples[0]);
    assert forall|i: int| 0 <= i < m0.rows.len() implies #[trigger] m0.rows[i].len()
        == m0.width by {}
    lemma_append_all_filled(m0, samples.take(m.width as int));
    lemma_rotate_filled(m0.append_all(samples.take(m.width as int)));
}

/// A push that fits keeps the rotation filled; it completes the window
/// exactly when it fills the room left, and then steps back by `jump`.
proof fn lemma_after_push_filled<S>(m: RotationModel<S>, samples: Seq<S>, count: nat)
    requires
        m.is_filled(),
        count <= m.width - m.pos,
        samples.len() >= count,
    ensures
        m.after_push(samples, count).is_filled(),
        m.after_push(samples, count).jump == m.jump,
        m.after_push(samples, count).width == m.width,
        m.pos + count == m.width ==> m.after_push(samples, count).pos == m.width - m.jump,
        m.pos + count < m.width ==> m.after_push(samples, count).pos == m.pos + count,
{
    let a = m.append_all(samples.take(count as int));
    lemma_append_all_filled(m, samples.take(count as int));
    if a.pos == m.width {
        lemma_rotate_filled(a);
    }
}

impl<S> RotationModel<S> {
    /// Like `holds_recent`, but only at row indices `from` and beyond.
    pub open spec fn holds_recent_from(self, recent: Seq<S>, from: nat) -> bool {
        &&& recent.len() == self.pos
        &&& forall|i: int, j: int|
            0 <= i < self.rows.len() && from <= j && self.jump * i + j < self.pos
                ==> #[trigger] self.rows[i][j] == recent[self.jump * i + j]
    }

    /// Like `follows`, but only at row indices `from` and beyond.
    pub open spec fn follows_from(self, history: Seq<S>, from: nat) -> bool {
        &&& history.len() >= self.pos
        &&& self.holds_recent_from(
            history.subrange(history.len() - self.pos, history.len() as int),
            from,
        )
    }
}

proof fn lemma_append_all_recent_from<S>(
    m: RotationModel<S>,
    recent: Seq<S>,
    s: Seq<S>,
    from: nat,
)
    requires
        m.is_filled(),
        m.holds_recent_from(recent, from),
        m.pos + s.len() <= m.width,
    ensures
        m.append_all(s).holds_recent_from(recent + s, from),
{
    let a = m.append_all(s);
    assert forall|i: int, j: int|
        0 <= i < a.rows.len() && from <= j && a.jump * i + j < a.pos implies #[trigger] a.rows[i][j]
        == (recent + s)[a.jump * i + j] by {
        assert(m.rows[i].len() == m.width);
        assert(m.jump * i >= 0) by (nonlinear_arith)
            requires
                i >= 0,
        ;
    }
}

/// Rotating after a full window keeps every row in step with that window,
/// less its first `jump` samples, from index `width % jump` on.
proof fn lemma_rotate_recent_from<S>(a: RotationModel<S>, full: Seq<S>, from: nat)
    requires
        a.is_filled(),
        a.pos == a.width,
        a.holds_recent_from(full, from),
        from >= a.width % a.jump,
    ensures
        a.rotate_once().holds_recent_from(full.skip(a.jump as int), from),
{
    let n = a.rows.len();
    let r = a.rotate_once();
    let w = a.width as int;
    let jj = a.jump as int;
    lemma_fundamental_div_mod(w, jj);
    assert(n == w / jj);
    lemma_one_row_at_least(a.jump, a.width);
    assert forall|k: int, j: int|
        0 <= k < r.rows.len() && from <= j && r.jump * k + j < r.pos implies #[trigger] r.rows[k][j]
        == full.skip(a.jump as int)[r.jump * k + j] by {
        assert(a.jump * (k + 1) == a.jump * k + a.jump) by (nonlinear_arith);
        if k < n - 1 {
            assert(r.rows[k] == a.rows[k + 1]);
            assert(a.rows[k + 1][j] == full[a.jump * (k + 1) + j]);
        } else {
            assert(a.jump * k == a.jump * (n - 1));
            assert(a.jump * (n - 1) == a.jump * n - a.jump) by (nonlinear_arith);
            assert(jj * n + w % jj == w);
            assert(false);
        }
    }
}

/// Law (rotation): rotating moves row 0 to the end and every other row up
/// by one, keeps the rows' number and the shape, and steps the position back
/// by `jump`, whatever `jump` and `width` are.
pub proof fn law_rotate_shifts_rows<S>(m: RotationModel<S>)
    requires
        m.rows.len() >= 1,
        m.pos >= m.jump,
    ensures
        m.rotate_once().rows.len() == m.rows.len(),
        forall|k: int| 0 <= k < m.rows.len() - 1 ==> #[trigger] m.rotate_once().rows[k] == m.rows[k + 1],
        m.rotate_once().rows[m.rows.len() - 1] == m.rows[0],
        m.rotate_once().pos == m.pos - m.jump,
        m.rotate_once().jump == m.jump,
        m.rotate_once().width == m.width,
{
}

/// Law (first window and the rows after it): for every `1 <= jump <= width`,
/// the first window handed out is the first `width` samples read; every
/// other row `k` holds the samples from `jump * (k + 1)` on, up to the end
/// of what was read; and the rotation is in step with what was read from
/// index `width % jump` on.
pub proof fn law_first_window_rows<S>(m: RotationModel<S>, samples: Seq<S>)
    requires
        m.is_fresh(),
        1 <= m.jump <= m.width,
        samples.len() >= m.width,
    ensures
        ({
            let f = m.first_window_of(samples);
            &&& f.rows.len() == m.width / m.jump
            &&& f.pos == m.width - m.jump
            &&& f.window() == samples.take(m.width as int)
            &&& forall|k: int, j: int|
                0 <= k < f.rows.len() - 1 && 0 <= j && m.jump * (k + 1) + j < m.width
                    ==> #[trigger] f.rows[k][j] == samples[m.jump * (k + 1) + j]
            &&& f.follows_from(samples.take(m.width as int), m.width % m.jump)
        }),
{
    let m0 = m.with_rows_of(samples[0]);
    let full = samples.take(m.width as int);
    let f = m.first_window_of(samples);
    assert forall|i: int| 0 <= i < m0.rows.len() implies #[trigger] m0.rows[i].len()
        == m0.width by {}
    assert(m0.holds_recent(Seq::<S>::empty()));
    lemma_append_all_recent(m0, Seq::<S>::empty(), full);
    assert(Seq::<S>::empty() + full =~= full);
    let a = m0.append_all(full);
    lemma_append_all_filled(m0, full);
    lemma_full_row(a, full);
    law_first_window(m, samples);
    lemma_one_row_at_least(m.jump, m.width);
    assert forall|k: int, j: int|
        0 <= k < f.rows.len() - 1 && 0 <= j && m.jump * (k + 1) + j < m.width implies #[trigger] f.rows[k][j]
        == samples[m.jump * (k + 1) + j] by {
        assert(f.rows[k] == a.rows[k + 1]);
        assert(a.rows[k + 1][j] == full[a.jump * (k + 1) + j]);
    }
    assert(a.holds_recent_from(full, m.width % m.jump));
    lemma_rotate_recent_from(a, full, m.width % m.jump);
    assert(full.subrange(full.len() - (m.width - m.jump), full.len() as int) =~= full.skip(
        m.jump as int,
    ));
}

/// Law (later windows, for every `jump`): when the rotation is in step with
/// `history` from index `width % jump` on, pushing samples keeps it so for
/// the extended history; a push that completes the window hands out a row
/// of `width` samples that agrees with the last `width` samples read at
/// every index from `width % jump` on (at all of them when `jump` divides
/// `width`), and the next window needs `jump` more samples.
pub proof fn law_push_window_from<S>(
    m: RotationModel<S>,
    history: Seq<S>,
    samples: Seq<S>,
    count: nat,
)
    requires
        m.is_filled(),
        m.follows_from(history, m.width % m.jump),
        count <= m.width - m.pos,
        samples.len() >= count,
    ensures
        ({
            let h = history + samples.take(count as int);
            let m2 = m.after_push(samples, count);
            &&& m2.follows_from(h, m.width % m.jump)
            &&& m.pos + count == m.width ==> {
                &&& m2.window().len() == m.width
                &&& forall|j: int|
                    m.width % m.jump <= j < m.width ==> #[trigger] m2.window()[j] == h[h.len()
                        - m.width + j]
                &&& m2.pos == m.width - m.jump
            }
        }),
{
    let from = m.width % m.jump;
    let s = samples.take(count as int);
    let h = history + s;
    let recent = history.subrange(history.len() - m.pos, history.len() as int);
    lemma_append_all_recent_from(m, recent, s, from);
    lemma_append_all_filled(m, s);
    let a = m.append_all(s);
    assert(recent + s =~= h.subrange(h.len() - a.pos, h.len() as int));
    if m.pos + count == m.width {
        let full = recent + s;
        lemma_one_row_at_least(m.jump, m.width);
        lemma_rotate_recent_from(a, full, from);
        assert(a.rotate_once().rows.last() == a.rows[0]);
        assert(a.rows[0].len() == m.width);
        assert forall|j: int| from <= j < m.width implies #[trigger] a.rotate_once().window()[j]
            == h[h.len() - m.width + j] by {
            assert(a.rows[0][j] == full[a.jump * 0 + j]);
        }
        assert(full.skip(m.jump as int) =~= h.subrange(
            h.len() - (m.width - m.jump),
            h.len() as int,
        ));
    }
}

/// Law (second window, for every `jump`): with at least two rows (or `jump`
/// dividing `width`), after the first window and a read of `jump` more
/// samples, the window handed out is the last `width` samples read.
pub proof fn law_second_window<S>(m: RotationModel<S>, first: Seq<S>, second: Seq<S>)
    requires
        m.is_fresh(),
        1 <= m.jump <= m.width,
        m.width / m.jump >= 2 || m.width % m.jump == 0,
        first.len() == m.width,
        second.len() == m.jump,
    ensures
        ({
            let m2 = m.first_window_of(first).after_push(second, m.jump);
            let h = first + second;
            &&& m2.window() == h.subrange(h.len() - m.width, h.len() as int)
            &&& m2.pos == m.width - m.jump
        }),
{
    let f = m.first_window_of(first);
    let h = first + second;
    law_first_window_rows(m, first);
    lemma_first_window_filled(m, first);
    assert(first.take(m.width as int) =~= first);
    if m.width % m.jump == 0 {
        law_first_window(m, first);
        law_push_window(f, first, second, m.jump);
        assert(second.take(m.jump as int) =~= second);
    } else {
        let s = second.take(m.jump as int);
        assert(s =~= second);
        let a = f.append_all(s);
        lemma_append_all_filled(f, s);
        lemma_one_row_at_least(m.jump, m.width);
        let win = first.skip(m.jump as int) + second;
        assert(f.rows[0].len() == m.width);
        assert forall|k: int| 0 <= k < m.width implies #[trigger] a.rows[0][k] == win[k] by {
            if k < f.pos {
                assert(f.rows[0][k] == first[m.jump * (0 + 1) + k]);
            }
        }
        assert(a.rows[0] =~= win);
        assert(a.rotate_once().rows.last() == a.rows[0]);
        assert(win =~= h.subrange(h.len() - m.width, h.len() as int));
    }
}

impl<S> RotationModel<S> {
    /// One successful read made by a call that wants a window: the first read
    /// (when there are no rows) starts the first window, later reads are
    /// pushed.
    pub open spec fn step(self, read: Seq<S>) -> RotationModel<S> {
        if self.rows.len() == 0 {
            self.first_window_of(read)
        } else {
            self.after_push(read, read.len())
        }
    }

    /// Whether the call that made that read hands out a window.
    pub open spec fn step_ready(self, read: Seq<S>) -> bool {
        self.rows.len() == 0 || self.pos + read.len() == self.width
    }

    /// What a read may be: the first one is a whole window; a later one is
    /// at least one sample and no more than the current window still needs
    /// (what `to_read` asks for when samples are ready).
    pub open spec fn read_fits(self, read: Seq<S>) -> bool {
        if self.rows.len() == 0 {
            read.len() == self.width
        } else {
            1 <= read.len() <= self.width - self.pos
        }
    }

    /// The rotation after the successful reads `reads`, in order.
    pub open spec fn replay(self, reads: Seq<Seq<S>>) -> RotationModel<S>
        decreases reads.len(),
    {
        if reads.len() == 0 {
            self
        } else {
            self.replay(reads.drop_last()).step(reads.last())
        }
    }

    /// Every read of `reads` fits when it is made.
    pub open spec fn reads_fit(self, reads: Seq<Seq<S>>) -> bool
        decreases reads.len(),
    {
        reads.len() == 0 || (self.reads_fit(reads.drop_last()) && self.replay(
            reads.drop_last(),
        ).read_fits(reads.last()))
    }

    /// How many of the reads `reads` completed a window.
    pub open spec fn windows(self, reads: Seq<Seq<S>>) -> nat
        decreases reads.len(),
    {
        if reads.len() == 0 {
            0
        } else {
            self.windows(reads.drop_last()) + if self.replay(reads.drop_last()).step_ready(
                reads.last(),
            ) {
                1nat
            } else {
                0nat
            }
        }
    }
}

/// All samples read by `reads`, in order.
pub open spec fn read_frames<S>(reads: Seq<Seq<S>>) -> Seq<S>
    decreases reads.len(),
{
    if reads.len() == 0 {
        Seq::empty()
    } else {
        read_frames(reads.drop_last()) + reads.last()
    }
}

/// Law (window count): starting from a fresh rotation with `1 <= jump <= width`,
/// after any successful reads that fit, `T` samples have been read with
/// `T >= width`; the number of windows handed out is `(T - width) / jump + 1`;
/// the position in the window is `width - jump + (T - width) % jump`; and the
/// last read handed out a window exactly when `(T - width) % jump == 0`.  So
/// the first window comes after `width` samples and each later one after
/// exactly `jump` more.
pub proof fn law_window_count<S>(m: RotationModel<S>, reads: Seq<Seq<S>>)
    requires
        m.is_fresh(),
        1 <= m.jump <= m.width,
        m.reads_fit(reads),
        reads.len() >= 1,
    ensures
        read_frames(reads).len() >= m.width,
        m.replay(reads).is_filled(),
        m.replay(reads).jump == m.jump,
        m.replay(reads).width == m.width,
        m.replay(reads).pos == m.width - m.jump + (read_frames(reads).len() - m.width) % (
        m.jump as int),
        m.windows(reads) == (read_frames(reads).len() - m.width) / (m.jump as int) + 1,
        m.replay(reads.drop_last()).step_ready(reads.last()) <==> (read_frames(reads).len()
            - m.width) % (m.jump as int) == 0,
    decreases reads.len(),
{
    let prev = reads.drop_last();
    let read = reads.last();
    let j = m.jump as int;
    if reads.len() == 1 {
        assert(prev.len() == 0);
        assert(m.replay(prev) == m);
        assert(read_frames(prev) == Seq::<S>::empty());
        assert(read_frames(reads) =~= read);
        lemma_first_window_filled(m, read);
        lemma_fundamental_div_mod_converse(0, j, 0, 0);
        assert(m.windows(prev) == 0);
        assert(m.step_ready(read));
        assert(read.len() == m.width);
    } else {
        law_window_count(m, prev);
        let p = m.replay(prev);
        let d = read_frames(prev).len() - m.width;
        let q = d / j;
        let rem = d % j;
        lemma_fundamental_div_mod(d, j);
        lemma_mod_pos_bound(d, j);
        lemma_one_row_at_least(m.jump, m.width);
        let len = read.len();
        assert(read.take(len as int) =~= read);
        lemma_after_push_filled(p, read, len);
        assert(read_frames(reads) == read_frames(prev) + read);
        assert(d + len == q * j + rem + len) by (nonlinear_arith)
            requires
                d == j * q + rem,
        ;
        assert(p.rows.len() >= 1);
        assert(p.pos == m.width - j + rem);
        assert(m.windows(prev) == q + 1);
        assert(m.windows(reads) == m.windows(prev) + (if p.step_ready(read) {
            1nat
        } else {
            0nat
        }));
        assert(read_frames(reads).len() - m.width == d + len);
        if rem + len == j {
            assert(d + len == (q + 1) * j + 0) by (nonlinear_arith)
                requires
                    d + len == q * j + rem + len,
                    rem + len == j,
            ;
            lemma_fundamental_div_mod_converse(d + len, j, q + 1, 0);
            assert(p.step_ready(read));
        } else {
            lemma_fundamental_div_mod_converse(d + len, j, q, rem + len);
            assert(!p.step_ready(read));
        }
    }
}

/// Law (every window is the latest samples): starting from a fresh rotation
/// with `1 <= jump <= width` and `jump` dividing `width`, after any
/// successful reads that fit, the rotation is in step with everything read,
/// and when the last read handed out a window, that window is exactly the
/// last `width` samples read.
pub proof fn law_windows_latest<S>(m: RotationModel<S>, reads: Seq<Seq<S>>)
    requires
        m.is_fresh(),
        1 <= m.jump <= m.width,
        m.width % m.jump == 0,
        m.reads_fit(reads),
        reads.len() >= 1,
    ensures
        m.replay(reads).follows(read_frames(reads)),
        m.replay(reads.drop_last()).step_ready(reads.last()) ==> m.replay(reads).window()
            == read_frames(reads).subrange(
            read_frames(reads).len() - m.width,
            read_frames(reads).len() as int,
        ),
    decreases reads.len(),
{
    let prev = reads.drop_last();
    let read = reads.last();
    law_window_count(m, reads);
    if reads.len() == 1 {
        assert(m.replay(prev) == m);
        assert(read_frames(prev) == Seq::<S>::empty());
        assert(read_frames(reads) =~= read);
        assert(read.take(m.width as int) =~= read);
        law_first_window(m, read);
        assert(read.subrange(0, read.len() as int) =~= read);
    } else {
        law_windows_latest(m, prev);
        law_window_count(m, prev);
        let p = m.replay(prev);
        lemma_one_row_at_least(m.jump, m.width);
        let len = read.len();
        assert(read.take(len as int) =~= read);
        law_push_window(p, read_frames(prev), read, len);
        assert(read_frames(reads) == read_frames(prev) + read);
    }
}

/// The reads up to `k` fit, and what they read begins what all of `reads` read.
proof fn lemma_prefix_reads<S>(m: RotationModel<S>, reads: Seq<Seq<S>>, k: int)
    requires
        m.reads_fit(reads),
        0 <= k <= reads.len(),
    ensures
        m.reads_fit(reads.take(k)),
        read_frames(reads.take(k)).len() <= read_frames(reads).len(),
        read_frames(reads.take(k)) == read_frames(reads).take(
            read_frames(reads.take(k)).len() as int,
        ),
    decreases reads.len(),
{
    if k == reads.len() {
        assert(reads.take(k) =~= reads);
        assert(read_frames(reads).take(read_frames(reads).len() as int) =~= read_frames(reads));
    } else {
        let prev = reads.drop_last();
        assert(reads.take(k) =~= prev.take(k));
        lemma_prefix_reads(m, prev, k);
        assert(read_frames(reads) == read_frames(prev) + reads.last());
        let fk = read_frames(prev.take(k));
        assert(read_frames(reads).take(fk.len() as int) =~= read_frames(prev).take(
            fk.len() as int,
        ));
    }
}

/// Law (windows slide by `jump`): with `jump` dividing `width`, when two
/// reads hand out consecutive windows (the one after `k` reads and the one
/// after all of `reads`, with no window between), the later window begins
/// with the earlier one less its first `jump` samples.
pub proof fn law_windows_slide<S>(m: RotationModel<S>, reads: Seq<Seq<S>>, k: int)
    requires
        m.is_fresh(),
        1 <= m.jump <= m.width,
        m.width % m.jump == 0,
        m.reads_fit(reads),
        1 <= k < reads.len(),
        m.replay(reads.take(k - 1)).step_ready(reads[k - 1]),
        m.replay(reads.drop_last()).step_ready(reads.last()),
        m.windows(reads) == m.windows(reads.take(k)) + 1,
    ensures
        m.replay(reads).window().take(m.width - m.jump) == m.replay(reads.take(k)).window().skip(
            m.jump as int,
        ),
{
    let rk = reads.take(k);
    let j = m.jump as int;
    let w = m.width as int;
    lemma_prefix_reads(m, reads, k);
    assert(rk.drop_last() =~= reads.take(k - 1));
    assert(rk.last() == reads[k - 1]);
    law_window_count(m, rk);
    law_window_count(m, reads);
    law_windows_latest(m, rk);
    law_windows_latest(m, reads);
    let f = read_frames(reads);
    let fk = read_frames(rk);
    let t = f.len() as int;
    let tk = fk.len() as int;
    lemma_fundamental_div_mod(t - w, j);
    lemma_fundamental_div_mod(tk - w, j);
    assert(t == tk + j) by (nonlinear_arith)
        requires
            t - w == j * ((t - w) / j) + 0,
            tk - w == j * ((tk - w) / j) + 0,
            (t - w) / j == (tk - w) / j + 1,
    ;
    let later = m.replay(reads).window();
    let earlier = m.replay(rk).window();
    assert(later == f.subrange(t - w, t));
    assert(earlier == fk.subrange(tk - w, tk));
    assert forall|i: int| 0 <= i < w - j implies #[trigger] later.take(w - j)[i] == earlier.skip(
        j,
    )[i] by {
        assert(fk[tk - w + j + i] == f[tk - w + j + i]);
    }
    assert(later.take(w - j) =~= earlier.skip(j));
}

impl<S> RotationModel<S> {
    /// The first `width % jump` indices of every row, which no append reaches
    /// once the first window is out: row `i` holds there what the first read
    /// put in the row that started `jump * ((i + c) % rows)` samples into it,
    /// `c` being the number of rotations so far.
    pub open spec fn frozen_from(self, first: Seq<S>, c: nat) -> bool {
        forall|i: int, j: int|
            0 <= i < self.rows.len() && 0 <= j < self.width % self.jump ==> #[trigger] self.rows[i][j]
                == first[self.jump * ((i + c) % (self.rows.len() as int)) + j]
    }
}

/// With `n = width / jump` rows, `width == jump * n + width % jump`.
proof fn lemma_rows_and_rest(jump: nat, width: nat)
    requires
        1 <= jump <= width,
    ensures
        width == jump * (width / jump) + width % jump,
        width / jump >= 1,
        width % jump < jump,
{
    lemma_fundamental_div_mod(width as int, jump as int);
    lemma_one_row_at_least(jump, width);
    lemma_mod_pos_bound(width as int, jump as int);
}

proof fn lemma_frozen_first<S>(m: RotationModel<S>, first: Seq<S>)
    requires
        m.is_fresh(),
        1 <= m.jump <= m.width,
        first.len() == m.width,
    ensures
        m.first_window_of(first).frozen_from(first, 1),
{
    let f = m.first_window_of(first);
    law_first_window_rows(m, first);
    lemma_rows_and_rest(m.jump, m.width);
    let n = (m.width / m.jump) as int;
    let r = (m.width % m.jump) as int;
    assert(first.take(m.width as int) =~= first);
    assert forall|i: int, j: int|
        0 <= i < f.rows.len() && 0 <= j < f.width % f.jump implies #[trigger] f.rows[i][j]
        == first[f.jump * ((i + 1) % (f.rows.len() as int)) + j] by {
        if i < n - 1 {
            lemma_small_mod((i + 1) as nat, n as nat);
            assert(m.jump * (i + 1) <= m.jump * (n - 1)) by (nonlinear_arith)
                requires
                    i + 1 <= n - 1,
            ;
            assert(m.jump * (n - 1) == m.jump * n - m.jump) by (nonlinear_arith);
        } else {
            lemma_mod_add_multiples_vanish(0, n);
            lemma_small_mod(0, n as nat);
            assert(f.rows[i] == f.window());
        }
    }
}

proof fn lemma_frozen_push<S>(
    m: RotationModel<S>,
    first: Seq<S>,
    c: nat,
    samples: Seq<S>,
    count: nat,
)
    requires
        m.is_filled(),
        m.pos >= m.width - m.jump,
        m.frozen_from(first, c),
        count <= m.width - m.pos,
        samples.len() >= count,
    ensures
        m.after_push(samples, count).frozen_from(
            first,
            if m.pos + count == m.width {
                c + 1
            } else {
                c
            },
        ),
{
    lemma_rows_and_rest(m.jump, m.width);
    let n = m.rows.len() as int;
    let s = samples.take(count as int);
    let a = m.append_all(s);
    lemma_append_all_filled(m, s);
    assert forall|i: int, j: int| 0 <= i < n && 0 <= j < m.width % m.jump implies #[trigger] a.rows[i][j]
        == m.rows[i][j] by {
        assert(m.rows[i].len() == m.width);
        assert(m.jump * i <= m.jump * (n - 1)) by (nonlinear_arith)
            requires
                i <= n - 1,
        ;
        assert(m.jump * (n - 1) == m.jump * n - m.jump) by (nonlinear_arith);
    }
    if m.pos + count == m.width {
        let r2 = a.rotate_once();
        assert forall|i: int, j: int|
            0 <= i < r2.rows.len() && 0 <= j < r2.width % r2.jump implies #[trigger] r2.rows[i][j]
            == first[r2.jump * ((i + (c + 1)) % (r2.rows.len() as int)) + j] by {
            if i < n - 1 {
                assert(r2.rows[i] == a.rows[i + 1]);
                assert(i + 1 + c == i + (c + 1));
            } else {
                assert(r2.rows[i] == a.rows[0]);
                lemma_mod_add_multiples_vanish(c as int, n);
                assert(i + (c + 1) == n + c);
            }
        }
    }
}

/// Law (all reads, every `jump`): starting fresh with `1 <= jump <= width`,
/// after any successful reads that fit, the samples read begin with the
/// first read; the rotation is in step with everything read from index
/// `width % jump` on; the indices below `width % jump` of every row keep
/// what the first read put there (see `frozen_from`); and when the last
/// read handed out a window, that window agrees with the last `width`
/// samples read from index `width % jump` on.
pub proof fn law_windows_general<S>(m: RotationModel<S>, reads: Seq<Seq<S>>)
    requires
        m.is_fresh(),
        1 <= m.jump <= m.width,
        m.reads_fit(reads),
        reads.len() >= 1,
    ensures
        forall|i: int| 0 <= i < m.width ==> #[trigger] read_frames(reads)[i] == reads[0][i],
        m.replay(reads).follows_from(read_frames(reads), m.width % m.jump),
        m.replay(reads).frozen_from(reads[0], m.windows(reads)),
        m.replay(reads.drop_last()).step_ready(reads.last()) ==> forall|j: int|
            m.width % m.jump <= j < m.width ==> #[trigger] m.replay(reads).window()[j]
                == read_frames(reads)[read_frames(reads).len() - m.width + j],
    decreases reads.len(),
{
    let prev = reads.drop_last();
    let read = reads.last();
    law_window_count(m, reads);
    if reads.len() == 1 {
        assert(m.replay(prev) == m);
        assert(read_frames(prev) == Seq::<S>::empty());
        assert(read_frames(reads) =~= read);
        assert(read.take(m.width as int) =~= read);
        assert(m.windows(prev) == 0);
        law_first_window_rows(m, read);
        lemma_frozen_first(m, read);
    } else {
        law_windows_general(m, prev);
        law_window_count(m, prev);
        let p = m.replay(prev);
        let fp = read_frames(prev);
        lemma_mod_pos_bound(fp.len() - m.width, m.jump as int);
        lemma_one_row_at_least(m.jump, m.width);
        let len = read.len();
        assert(read.take(len as int) =~= read);
        assert(prev[0] == reads[0]);
        law_push_window_from(p, fp, read, len);
        lemma_frozen_push(p, reads[0], m.windows(prev), read, len);
        assert(read_frames(reads) == fp + read);
        assert forall|i: int| 0 <= i < m.width implies #[trigger] read_frames(reads)[i]
            == reads[0][i] by {
            assert(fp[i] == prev[0][i]);
        }
    }
}

/// Law (exact windows, every `jump`): starting fresh with
/// `1 <= jump <= width`, when the last of some successful reads that fit
/// hands out its window, and that is window number `k` (counting from 1),
/// then `width + (k - 1) * jump` samples have been read, and the window is:
/// at index `j >= width % jump`, the `j`-th of the last `width` samples read;
/// at index `j < width % jump`, sample `jump * ((k - 1) % n) + j` of the
/// first read, `n = width / jump` being the number of rows.  When `jump`
/// divides `width` the window is exactly the last `width` samples read.
pub proof fn law_window_exact<S>(m: RotationModel<S>, reads: Seq<Seq<S>>)
    requires
        m.is_fresh(),
        1 <= m.jump <= m.width,
        m.reads_fit(reads),
        reads.len() >= 1,
        m.replay(reads.drop_last()).step_ready(reads.last()),
    ensures
        ({
            let f = read_frames(reads);
            let k = m.windows(reads) as int;
            let n = (m.width / m.jump) as int;
            &&& f.len() == m.width + (k - 1) * m.jump
            &&& m.replay(reads).window() == Seq::new(
                m.width,
                |j: int|
                    if j < m.width % m.jump {
                        f[m.jump * ((k - 1) % n) + j]
                    } else {
                        f[f.len() - m.width + j]
                    },
            )
        }),
{
    let f = read_frames(reads);
    let k = m.windows(reads) as int;
    let n = (m.width / m.jump) as int;
    let jj = m.jump as int;
    let p = m.replay(reads);
    law_window_count(m, reads);
    law_windows_general(m, reads);
    lemma_rows_and_rest(m.jump, m.width);
    lemma_fundamental_div_mod(f.len() - m.width, jj);
    assert(f.len() - m.width == jj * (k - 1));
    assert(f.len() == m.width + (k - 1) * jj) by (nonlinear_arith)
        requires
            f.len() - m.width == jj * (k - 1),
    ;
    let expected = Seq::new(
        m.width,
        |j: int|
            if j < m.width % m.jump {
                f[m.jump * ((k - 1) % n) + j]
            } else {
                f[f.len() - m.width + j]
            },
    );
    assert(p.rows.len() == n);
    assert(p.window() == p.rows[n - 1]);
    assert(p.rows[n - 1].len() == m.width);
    assert forall|j: int| 0 <= j < m.width implies #[trigger] p.window()[j] == expected[j] by {
        if j < m.width % m.jump {
            lemma_mod_add_multiples_vanish(k - 1, n);
            assert(n - 1 + k == n + (k - 1));
            lemma_mod_bound(k - 1, n);
            let x = jj * ((k - 1) % n) + j;
            assert(jj * ((k - 1) % n) <= jj * (n - 1)) by (nonlinear_arith)
                requires
                    (k - 1) % n <= n - 1,
                    jj >= 1,
            ;
            assert(jj * (n - 1) == jj * n - jj) by (nonlinear_arith);
            assert(p.rows[n - 1][j] == reads[0][x]);
            assert(f[x] == reads[0][x]);
        }
    }
    assert(p.window() =~= expected);
}

/// Law (allocation): the rows already there stay, and `width / jump` new
/// rows follow, each `width` copies of the given value.
pub proof fn law_init_rows<S>(m: RotationModel<S>, val: S)
    requires
        m.jump >= 1,
    ensures
        m.with_rows_of(val).rows.len() == m.rows.len() + m.width / m.jump,
        forall|i: int| 0 <= i < m.rows.len() ==> #[trigger] m.with_rows_of(val).rows[i] == m.rows[i],
        forall|i: int, j: int|
            m.rows.len() <= i < m.rows.len() + m.width / m.jump && 0 <= j < m.width
                ==> #[trigger] m.with_rows_of(val).rows[i][j] == val,
        forall|i: int|
            m.rows.len() <= i < m.rows.len() + m.width / m.jump
                ==> #[trigger] m.with_rows_of(val).rows[i].len() == m.width,
        m.with_rows_of(val).pos == m.pos,
{
}

/// Law (one sample): the sample lands at index `pos - jump * i` of every
/// row `i` with `jump * i <= pos`; nothing else in the rows changes; the
/// position advances by one.
pub proof fn law_append_writes<S>(m: RotationModel<S>, sample: S)
    requires
        forall|i: int|
            0 <= i < m.rows.len() && m.jump * i <= m.pos ==> m.pos - m.jump * i
                < #[trigger] m.rows[i].len(),
    ensures
        m.append_one(sample).rows.len() == m.rows.len(),
        m.append_one(sample).pos == m.pos + 1,
        forall|i: int|
            0 <= i < m.rows.len() ==> #[trigger] m.append_one(sample).rows[i].len()
                == m.rows[i].len(),
        forall|i: int|
            0 <= i < m.rows.len() && m.jump * i <= m.pos ==> #[trigger] m.append_one(
                sample,
            ).rows[i][m.pos - m.jump * i] == sample,
        forall|i: int, j: int|
            0 <= i < m.rows.len() && 0 <= j < m.rows[i].len() && j != m.pos - m.jump * i
                ==> #[trigger] m.append_one(sample).rows[i][j] == m.rows[i][j],
{
}

/// While no window is handed out, each read moves the position forward by at
/// least one sample and stays short of a full window.
proof fn lemma_no_window<S>(p: RotationModel<S>, reads: Seq<Seq<S>>)
    requires
        p.is_filled(),
        p.pos < p.width,
        p.reads_fit(reads),
        p.windows(reads) == 0,
    ensures
        p.replay(reads).is_filled(),
        p.replay(reads).jump == p.jump,
        p.replay(reads).width == p.width,
        p.replay(reads).pos >= p.pos + reads.len(),
        p.replay(reads).pos < p.width,
    decreases reads.len(),
{
    if reads.len() > 0 {
        let prev = reads.drop_last();
        let read = reads.last();
        lemma_no_window(p, prev);
        let q = p.replay(prev);
        lemma_one_row_at_least(q.jump, q.width);
        assert(read.take(read.len() as int) =~= read);
        lemma_after_push_filled(q, read, read.len());
    }
}

/// Law (a window within the room left): from a filled rotation that is
/// short of a full window, among the next `width - pos` successful reads
/// that fit (each reads at least one sample), at least one hands out a
/// window.  After any window `width - pos == jump` (`law_window_count`), so
/// a window comes within `jump` reads.
pub proof fn law_window_within_room<S>(p: RotationModel<S>, reads: Seq<Seq<S>>)
    requires
        p.is_filled(),
        p.pos < p.width,
        p.reads_fit(reads),
        reads.len() == p.width - p.pos,
    ensures
        p.windows(reads) >= 1,
{
    if p.windows(reads) == 0 {
        lemma_no_window(p, reads);
    }
}

/// Law (every read a window): right after a window (`pos == width - jump`),
/// reads of `jump` samples each, which is what `to_read` asks for whenever
/// at least `jump` samples are ready, all fit and each hands out a window.
pub proof fn law_every_read_a_window<S>(p: RotationModel<S>, reads: Seq<Seq<S>>)
    requires
        p.is_filled(),
        p.pos == p.width - p.jump,
        forall|i: int| 0 <= i < reads.len() ==> #[trigger] reads[i].len() == p.jump,
    ensures
        p.reads_fit(reads),
        p.windows(reads) == reads.len(),
        p.replay(reads).is_filled(),
        p.replay(reads).jump == p.jump,
        p.replay(reads).width == p.width,
        p.replay(reads).pos == p.width - p.jump,
    decreases reads.len(),
{
    if reads.len() > 0 {
        let prev = reads.drop_last();
        let read = reads.last();
        assert forall|i: int| 0 <= i < prev.len() implies #[trigger] prev[i].len() == p.jump by {
            assert(prev[i] == reads[i]);
        }
        law_every_read_a_window(p, prev);
        let q = p.replay(prev);
        lemma_one_row_at_least(q.jump, q.width);
        assert(read.take(read.len() as int) =~= read);
        lemma_after_push_filled(q, read, read.len());
    }
}

/// Appending the samples of `s` and then `x` is appending `s.push(x)`.
proof fn lemma_append_all_push<S>(m: RotationModel<S>, s: Seq<S>, x: S)
    requires
        m.is_filled(),
        m.pos + s.len() < m.width,
    ensures
        m.append_all(s).append_one(x) == m.append_all(s.push(x)),
{
    let a = m.append_all(s).append_one(x);
    let b = m.append_all(s.push(x));
    assert forall|i: int| 0 <= i < m.rows.len() implies #[trigger] a.rows[i] == b.rows[i] by {
        let r = m.append_all(s).rows[i];
        assert(m.rows[i].len() == m.width);
        let w = m.pos + s.len() - m.jump * i;
        assert forall|k: int| 0 <= k < r.len() implies #[trigger] a.rows[i][k] == b.rows[i][k] by {
            if w >= 0 && k == w {
                assert(a.rows[i][k] == x);
            } else {
                assert(a.rows[i][k] == r[k]);
            }
        }
        assert(a.rows[i] =~= b.rows[i]);
    }
    assert(a.rows =~= b.rows);
}

/// What the caller should read next.
pub enum Request {
    /// Nothing has been read yet: block until this many samples arrive.
    Blocking(usize),
    /// Ask the stream how many samples are ready.
    Poll,
}

/// A sliding window of `width` samples that advances by `jump` samples.
pub struct Rotation<S> {
    jump: usize,
    width: usize,
    vlist: Vec<Vec<S>>,
    pos: usize,
}

impl<S> View for Rotation<S> {
    type V = RotationModel<S>;

    closed spec fn view(&self) -> RotationModel<S> {
        RotationModel {
            jump: self.jump as nat,
            width: self.width as nat,
            rows: self.vlist@.map_values(|r: Vec<S>| r@),
            pos: self.pos as nat,
        }
    }
}

impl<S: Copy> Rotation<S> {
    /// An empty rotation for windows of `width` samples advancing by `jump`.
    pub fn new(width: usize, jump: usize) -> (r: Self)
        ensures
            r@.width == width,
            r@.jump == jump,
            r@.is_fresh(),
    {
        Rotation { jump, width, vlist: Vec::new(), pos: 0 }
    }

    /// Writes `sample` into every row that has started and advances the
    /// window position.
    pub fn append(&mut self, sample: S)
        requires
            old(self)@.pos < usize::MAX,
            forall|i: int|
                0 <= i < old(self)@.rows.len() && old(self)@.jump * i <= old(self)@.pos
                    ==> old(self)@.pos - old(self)@.jump * i < #[trigger] old(self)@.rows[i].len(),
            forall|i: int|
                1 <= i < old(self)@.rows.len() && old(self)@.jump * (i - 1) <= old(self)@.pos
                    ==> #[trigger] (old(self)@.jump * i) <= usize::MAX,
        ensures
            final(self)@ == old(self)@.append_one(sample),
            old(self)@.is_filled() && old(self)@.pos < old(self)@.width ==> final(self)@.is_filled(),
    {
        let ghost rows0 = self@.rows;
        let n = self.vlist.len();
        let mut i: usize = 0;
        while i < n
            invariant_except_break
                0 <= i <= n,
            invariant
                n == self.vlist.len(),
                n == rows0.len(),
                self.jump == old(self).jump,
                self.width == old(self).width,
                self.pos == old(self).pos,
                rows0 == old(self)@.rows,
                forall|r: int|
                    0 <= r < n && self.jump * r <= self.pos ==> self.pos - self.jump * r
                        < #[trigger] rows0[r].len(),
                forall|r: int|
                    1 <= r < n && old(self)@.jump * (r - 1) <= old(self)@.pos ==> #[trigger] (old(
                        self,
                    )@.jump * r) <= usize::MAX,
                forall|r: int|
                    0 <= r < i ==> #[trigger] self@.rows[r] == rows0[r].update(
                        self.pos - self.jump * r,
                        sample,
                    ),
                forall|r: int| 0 <= r < i ==> self.pos >= #[trigger] (self.jump * r),
                forall|r: int| i <= r < n ==> #[trigger] self@.rows[r] == rows0[r],
            ensures
                i <= n,
                forall|r: int|
                    0 <= r < n ==> #[trigger] self@.rows[r] == (if self.pos >= self.jump * r {
                        rows0[r].update(self.pos - self.jump * r, sample)
                    } else {
                        rows0[r]
                    }),
            decreases n - i,
        {
            if i > 0 {
                assert(self.pos >= self.jump * ((i - 1) as int));
                assert(old(self)@.jump * i <= usize::MAX);
            } else {
                assert(self.jump * i == 0) by (nonlinear_arith)
                    requires
                        i == 0,
                ;
            }
            assert(self.jump * i <= usize::MAX);
            let ghost old_rows = self@.rows;
            if self.pos >= self.jump * i {
                let k = self.pos - self.jump * i;
                assert(self@.rows[i as int] == self.vlist@[i as int]@);
                assert(k < rows0[i as int].len());
                self.vlist[i][k] = sample;
                assert(self@.rows =~= old_rows.update(
                    i as int,
                    old_rows[i as int].update(k as int, sample),
                ));
            } else {
                assert forall|r: int| i <= r < n implies self.pos < #[trigger] (self.jump * r) by {
                    assert(self.jump * i <= self.jump * r) by (nonlinear_arith)
                        requires
                            i <= r,
                    ;
                }
                break;
            }
            i += 1;
        }
        let ghost written = self@.rows;
        self.pos = self.pos + 1;
        assert(self@.rows == written);
        assert forall|r: int| 0 <= r < n implies #[trigger] written[r] == old(
            self,
        )@.append_one(sample).rows[r] by {}
        assert(self@.rows =~= old(self)@.append_one(sample).rows);
        proof {
            if old(self)@.is_filled() && old(self)@.pos < old(self)@.width {
                assert forall|r: int| 0 <= r < self@.rows.len() implies #[trigger] self@.rows[r].len()
                    == self.width by {
                    assert(rows0[r].len() == self.width);
                }
            }
        }
    }

    /// The window width.
    pub fn width(&self) -> (w: usize)
        ensures
            w == self@.width,
    {
        self.width
    }

    /// The number of samples the window advances by.
    pub fn jump(&self) -> (j: usize)
        ensures
            j == self@.jump,
    {
        self.jump
    }

    /// Allocates `width / jump` rows of `width` copies of `val`.
    pub fn init(&mut self, val: S)
        requires
            old(self)@.jump >= 1,
        ensures
            final(self)@ == old(self)@.with_rows_of(val),
    {
        let ghost rows0 = self@.rows;
        let count = self.width / self.jump;
        for t in 0..count
            invariant
                count == self.width / self.jump,
                self.jump == old(self).jump,
                self.width == old(self).width,
                self.pos == old(self).pos,
                rows0 == old(self)@.rows,
                self@.rows =~= rows0 + Seq::new(t as nat, |i: int| Seq::new(self.width as nat, |k: int| val)),
        {
            let mut v: Vec<S> = Vec::with_capacity(self.width);
            for k in 0..self.width
                invariant
                    v@ =~= Seq::new(k as nat, |j: int| val),
            {
                v.push(val);
            }
            let ghost before = self@.rows;
            self.vlist.push(v);
            assert(self@.rows =~= before.push(v@));
        }
        assert(self@.rows =~= old(self)@.with_rows_of(val).rows);
    }

    /// What to read next: a blocking read of a whole window when nothing has
    /// been read yet, otherwise a poll of what the stream has ready.
    pub fn request(&self) -> (r: Request)
        ensures
            r == (if self@.rows.len() == 0 {
                Request::Blocking(self@.width as usize)
            } else {
                Request::Poll
            }),
    {
        if self.vlist.len() == 0 {
            Request::Blocking(self.width)
        } else {
            Request::Poll
        }
    }

    /// Given the number of samples the stream has ready, how many to read:
    /// as many as are ready, but no more than the current window still needs;
    /// none when nothing is ready.
    pub fn to_read(&self, available: i64) -> (r: Option<usize>)
        requires
            self@.pos <= self@.width,
        ensures
            available <= 0 ==> r is None,
            available > 0 ==> r is Some && r->0 == (if available < self@.width - self@.pos {
                available as int
            } else {
                self@.width - self@.pos
            }),
    {
        if available > 0 {
            let room = self.width - self.pos;
            if (available as u64) < (room as u64) {
                Some(available as usize)
            } else {
                Some(room)
            }
        } else {
            None
        }
    }

    /// Takes the result of the first, blocking read: allocates the rows
    /// filled with the first sample, appends the first `width` samples and
    /// rotates, so that the first window is ready.
    pub fn first_window(&mut self, samples: &[S])
        requires
            old(self)@.is_fresh(),
            old(self)@.jump >= 1,
            old(self)@.jump <= old(self)@.width,
            samples@.len() >= old(self)@.width,
        ensures
            final(self)@ == old(self)@.first_window_of(samples@),
            final(self)@.is_filled(),
            final(self)@.window() == samples@.take(old(self)@.width as int),
    {
        proof {
            law_first_window(self@, samples@);
        }
        let ghost m0 = self@.with_rows_of(samples@[0]);
        self.init(samples[0]);
        proof {
            lemma_one_row_at_least(self@.jump, self@.width);
        }
        proof {
            lemma_append_nothing(m0, samples@.take(0));
        }
        let width = self.width;
        for i in 0..width
            invariant
                width == self.width,
                m0.is_filled(),
                m0.pos == 0,
                m0.width == self.width,
                samples@.len() >= self.width,
                self@ == m0.append_all(samples@.take(i as int)),
                self@.is_filled(),
                self@.pos == i,
        {
            proof {
                lemma_append_all_push(m0, samples@.take(i as int), samples@[i as int]);
                assert(samples@.take(i as int).push(samples@[i as int]) =~= samples@.take(
                    i + 1,
                ));
            }
            proof {
                lemma_filled_can_append(self@);
            }
            self.append(samples[i]);
        }
        self.rotate();
    }

    /// Takes the result of a later read: appends `samples[..count]` and,
    /// when that completes the window, rotates and returns `true`.
    pub fn push_samples(&mut self, samples: &[S], count: usize) -> (ready: bool)
        requires
            old(self)@.is_filled(),
            count <= old(self)@.width - old(self)@.pos,
            samples@.len() >= count,
        ensures
            ready == (old(self)@.pos + count == old(self)@.width),
            final(self)@ == old(self)@.after_push(samples@, count as nat),
            final(self)@.is_filled(),
    {
        let ghost m0 = self@;
        proof {
            lemma_append_nothing(m0, samples@.take(0));
        }
        for i in 0..count
            invariant
                m0.is_filled(),
                m0 == old(self)@,
                count <= m0.width - m0.pos,
                samples@.len() >= count,
                self@ == m0.append_all(samples@.take(i as int)),
                self@.is_filled(),
                self@.pos == m0.pos + i,
        {
            proof {
                lemma_append_all_push(m0, samples@.take(i as int), samples@[i as int]);
                assert(samples@.take(i as int).push(samples@[i as int]) =~= samples@.take(
                    i + 1,
                ));
            }
            proof {
                lemma_filled_can_append(self@);
            }
            self.append(samples[i]);
        }
        if self.pos == self.width {
            proof {
                lemma_one_row_at_least(self@.jump, self@.width);
            }
            self.rotate();
            true
        } else {
            false
        }
    }

    /// The current window: the last row.
    pub fn window(&self) -> (w: &[S])
        requires
            self@.rows.len() >= 1,
        ensures
            w@ == self@.window(),
    {
        self.vlist[self.vlist.len() - 1].as_slice()
    }

    /// Exchanges rows `i` and `i + 1`.
    fn swap_rows(&mut self, i: usize)
        requires
            i + 1 < old(self).vlist.len(),
        ensures
            final(self).jump == old(self).jump,
            final(self).width == old(self).width,
            final(self).pos == old(self).pos,
            final(self).vlist@ == old(self).vlist@.update(i as int, old(self).vlist@[i + 1]).update(
                i + 1,
                old(self).vlist@[i as int],
            ),
    {
        let mut tmp: Vec<S> = Vec::new();
        std::mem::swap(&mut tmp, &mut self.vlist[i]);
        std::mem::swap(&mut tmp, &mut self.vlist[i + 1]);
        std::mem::swap(&mut tmp, &mut self.vlist[i]);
    }

    /// Moves row 0 to the end (by swapping it along) and steps the window
    /// position back by `jump`.
    pub fn rotate(&mut self)
        requires
            old(self)@.rows.len() >= 1,
            old(self)@.pos >= old(self)@.jump,
        ensures
            final(self)@ == old(self)@.rotate_once(),
    {
        let ghost rows0 = self.vlist@;
        let n = self.vlist.len();
        for i in 0..(n - 1)
            invariant
                n == rows0.len(),
                n >= 1,
                self.jump == old(self).jump,
                self.width == old(self).width,
                self.pos == old(self).pos,
                rows0 == old(self).vlist@,
                self.vlist@ =~= rows0.subrange(1, i + 1).push(rows0[0]) + rows0.subrange(
                    i + 1,
                    n as int,
                ),
        {
            self.swap_rows(i);
        }
        self.pos = self.pos - self.jump;
        assert(self.vlist@ =~= rows0.drop_first().push(rows0[0]));
        assert(self@.rows =~= old(self)@.rows.drop_first().push(old(self)@.rows[0]));
    }
}

} // verus!
