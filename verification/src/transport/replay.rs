//! Sliding-window anti-replay filter: an RFC 6479 bitmap 1024 counters
//! wide, owned by the caller.
//!
//! The window's meaning is its `view`: whether it has seen a counter yet,
//! the largest counter accepted, and the set of accepted counters that are
//! still inside the window. Bit `d` of the bitmap stands for counter
//! `largest - d`.

use vstd::prelude::*;

verus! {

pub const WINDOW_BITS: usize = 1024;
pub const WORD_BITS: usize = 64;
pub const WINDOW_WORDS: usize = 16;  // WINDOW_BITS / WORD_BITS

/// Bit `b` of `w`.
pub open spec fn bit_of(w: u64, b: u64) -> bool {
    (w >> b) & 1u64 == 1u64
}

/// Bit `d` of a 1024-bit window held in sixteen words, low word first.
pub open spec fn window_bit(win: Seq<u64>, d: int) -> bool {
    bit_of(win[d / 64], (d % 64) as u64)
}

proof fn lemma_or_bit(x: u64, y: u64, j: u64)
    requires
        j < 64,
    ensures
        bit_of(x | y, j) == (bit_of(x, j) || bit_of(y, j)),
{
    assert((((x | y) >> j) & 1u64 == 1u64) == (((x >> j) & 1u64 == 1u64) || ((y >> j) & 1u64
        == 1u64))) by (bit_vector)
        requires
            j < 64,
    ;
}

proof fn lemma_shl_bit(x: u64, b: u64, j: u64)
    requires
        b < 64,
        j < 64,
    ensures
        bit_of(x << b, j) == (j >= b && bit_of(x, (j - b) as u64)),
{
    assert((((x << b) >> j) & 1u64 == 1u64) == (j >= b && ((x >> ((j - b) as u64)) & 1u64 == 1u64)))
        by (bit_vector)
        requires
            b < 64,
            j < 64,
    ;
}

proof fn lemma_shr_bit(x: u64, b: u64, j: u64)
    requires
        0 < b < 64,
        j < 64,
    ensures
        bit_of(x >> ((64 - b) as u64), j) == (j < b && bit_of(x, (j + 64 - b) as u64)),
{
    assert((((x >> ((64 - b) as u64)) >> j) & 1u64 == 1u64) == (j < b && ((x >> ((j + 64 - b) as u64))
        & 1u64 == 1u64))) by (bit_vector)
        requires
            0 < b < 64,
            j < 64,
    ;
}

proof fn lemma_zero_bit(j: u64)
    ensures
        !bit_of(0u64, j),
{
    assert((0u64 >> j) & 1u64 != 1u64) by (bit_vector);
}

proof fn lemma_set_bit(w: u64, b: u64, c: u64)
    requires
        b < 64,
        c < 64,
    ensures
        bit_of(w | (1u64 << b), c) == (c == b || bit_of(w, c)),
        (w & (1u64 << b) != 0u64) == bit_of(w, b),
{
    assert(((w | (1u64 << b)) >> c) & 1u64 == 1u64 <==> (c == b || (w >> c) & 1u64 == 1u64))
        by (bit_vector)
        requires
            b < 64,
            c < 64,
    ;
    assert((w & (1u64 << b) != 0u64) == ((w >> b) & 1u64 == 1u64)) by (bit_vector)
        requires
            b < 64,
    ;
}

/// Shifts the 1024-bit window left by `shift` bits, toward the old end:
/// bit `d` of the result is bit `d - shift` of the input.
pub fn shift_left(win: &mut [u64; WINDOW_WORDS], shift: u64)
    ensures
        forall|d: int|
            0 <= d < 1024 ==> #[trigger] window_bit(final(win)@, d) == (d >= shift && window_bit(
                old(win)@,
                d - shift,
            )),
{
    if shift >= WINDOW_BITS as u64 {
        *win = [0u64;16];
        proof {
            assert forall|d: int| 0 <= d < 1024 implies #[trigger] window_bit(win@, d) == (d >= shift
                && window_bit(old(win)@, d - shift)) by {
                lemma_zero_bit((d % 64) as u64);
            }
        }
        return;
    }
    let word_shift = (shift / 64) as usize;
    let bit_shift = (shift % 64) as u32;
    let ghost old_win = win@;
    let mut w: usize = WINDOW_WORDS;
    while w > 0
        invariant
            w <= 16,
            word_shift == shift / 64,
            bit_shift == shift % 64,
            shift < 1024,
            old_win == old(win)@,
            win@.len() == 16,
            forall|k: int| 0 <= k < w ==> win@[k] == old_win[k],
            forall|d: int|
                w * 64 <= d < 1024 ==> #[trigger] window_bit(win@, d) == (d >= shift && window_bit(
                    old_win,
                    d - shift,
                )),
        decreases w,
    {
        w = w - 1;
        let mut v: u64 = 0;
        if bit_shift == 0 {
            if w >= word_shift {
                v = win[w - word_shift];
            }
        } else {
            if w >= word_shift {
                v = win[w - word_shift] << bit_shift;
            }
            if w >= word_shift + 1 {
                v = v | (win[w - word_shift - 1] >> (64 - bit_shift));
            }
        }
        proof {
            let bs = bit_shift as u64;
            assert forall|j: int| 0 <= j < 64 implies #[trigger] bit_of(v, j as u64) == (w * 64 + j
                >= shift && window_bit(old_win, w * 64 + j - shift)) by {
                let d = w * 64 + j;
                assert(d / 64 == w && d % 64 == j);
                let ju = j as u64;
                if bit_shift == 0 {
                    if w >= word_shift {
                        assert((d - shift) / 64 == w - word_shift && (d - shift) % 64 == j);
                    } else {
                        lemma_zero_bit(ju);
                    }
                } else {
                    let hi: u64 = if w >= word_shift {
                        old_win[w - word_shift] << bs
                    } else {
                        0u64
                    };
                    let lo: u64 = if w >= word_shift + 1 {
                        old_win[w - word_shift - 1] >> ((64 - bs) as u64)
                    } else {
                        0u64
                    };
                    if w >= word_shift + 1 {
                        assert(v == hi | lo);
                        lemma_or_bit(hi, lo, ju);
                    } else if w >= word_shift {
                        assert(v == hi);
                    } else {
                        assert(v == 0);
                    }
                    if w >= word_shift {
                        lemma_shl_bit(old_win[w - word_shift], bs, ju);
                        if j >= bs {
                            assert((d - shift) / 64 == w - word_shift && (d - shift) % 64 == j - bs);
                        }
                    } else {
                        lemma_zero_bit(ju);
                    }
                    if w >= word_shift + 1 {
                        lemma_shr_bit(old_win[w - word_shift - 1], bs, ju);
                        if j < bs {
                            assert((d - shift) / 64 == w - word_shift - 1 && (d - shift) % 64 == j
                                + 64 - bs);
                        }
                    } else {
                        lemma_zero_bit(ju);
                        if j < bs {
                            assert(d < shift);
                        }
                    }
                }
            }
        }
        let ghost pre = win@;
        win[w] = v;
        proof {
            assert forall|d: int|
                w * 64 <= d < 1024 implies #[trigger] window_bit(win@, d) == (d >= shift
                && window_bit(old_win, d - shift)) by {
                if d < w * 64 + 64 {
                    assert(d / 64 == w);
                    assert(bit_of(v, (d - w * 64) as u64) == (d >= shift && window_bit(
                        old_win,
                        d - shift,
                    )));
                    assert(d % 64 == d - w * 64);
                } else {
                    assert(d / 64 > w);
                    assert(win@[d / 64] == pre[d / 64]);
                    assert(window_bit(pre, d) == (d >= shift && window_bit(old_win, d - shift)));
                }
            }
        }
    }
}

/// The window's state.
pub struct ReplayModel {
    pub initialized: bool,
    pub largest: u64,
    pub seen: Set<u64>,
}

/// What `check` answers for `counter`, and the window after.
pub open spec fn spec_check(m: ReplayModel, counter: u64) -> (ReplayModel, bool) {
    if !m.initialized {
        (ReplayModel { initialized: true, largest: counter, seen: set![counter] }, true)
    } else if counter > m.largest {
        (
            ReplayModel {
                initialized: true,
                largest: counter,
                seen: m.seen.filter(|x: u64| counter - x < 1024).insert(counter),
            },
            true,
        )
    } else if m.largest - counter >= 1024 || m.seen.contains(counter) {
        (m, false)
    } else {
        (ReplayModel { seen: m.seen.insert(counter), ..m }, true)
    }
}

pub struct ReplayWindow {
    window: [u64; WINDOW_WORDS],
    largest: u64,
    initialized: bool,
}

impl View for ReplayWindow {
    type V = ReplayModel;

    closed spec fn view(&self) -> ReplayModel {
        ReplayModel {
            initialized: self.initialized,
            largest: self.largest,
            seen: Set::new(
                |c: u64|
                    self.initialized && c <= self.largest && self.largest - c < 1024 && window_bit(
                        self.window@,
                        self.largest - c,
                    ),
            ),
        }
    }
}

impl ReplayWindow {
    /// A window that has seen nothing has an empty bitmap.
    pub closed spec fn wf(&self) -> bool {
        !self.initialized ==> self.largest == 0 && forall|d: int|
            0 <= d < 1024 ==> !#[trigger] window_bit(self.window@, d)
    }

    pub fn new() -> (r: Self)
        ensures
            r.wf(),
            r@ == (ReplayModel { initialized: false, largest: 0, seen: Set::empty() }),
    {
        let r = Self { window: [0u64;16], largest: 0, initialized: false };
        proof {
            assert forall|d: int| 0 <= d < 1024 implies !#[trigger] window_bit(r.window@, d) by {
                lemma_zero_bit((d % 64) as u64);
            }
            assert(r@.seen =~= Set::<u64>::empty());
        }
        r
    }

    /// Check a counter against the window: true for fresh, false for a
    /// replay or a counter older than the window.
    #[verifier::rlimit(40)]
    pub fn check(&mut self, counter: u64) -> (fresh: bool)
        requires
            old(self).wf(),
        ensures
            final(self).wf(),
            (final(self)@, fresh) == spec_check(old(self)@, counter),
    {
        let ghost m0 = self@;
        if !self.initialized {
            self.initialized = true;
            self.largest = counter;
            let w0 = self.window[0] | 1;
            assert(1u64 << 0u64 == 1u64) by (bit_vector);
            self.window[0] = w0;
            proof {
                assert forall|c: u64| #[trigger] self@.seen.contains(c) == (c == counter) by {
                    if c <= counter && counter - c < 1024 {
                        let d = counter - c;
                        assert(!window_bit(old(self).window@, d as int));
                        if d >= 64 {
                            assert(self.window@[d / 64] == old(self).window@[d / 64]);
                        } else {
                            assert(d / 64 == 0 && d % 64 == d);
                            lemma_set_bit(old(self).window@[0], 0, d as u64);
                        }
                    }
                }
                assert(self@.seen =~= set![counter]);
            }
            return true;
        }
        if counter > self.largest {
            let shift = counter - self.largest;
            shift_left(&mut self.window, shift);
            let ghost shifted = self.window@;
            self.largest = counter;
            let w0 = self.window[0] | 1;
            assert(1u64 << 0u64 == 1u64) by (bit_vector);
            self.window[0] = w0;
            proof {
                assert forall|c: u64| #[trigger] self@.seen.contains(c) == (c == counter || (
                m0.seen.contains(c) && counter - c < 1024)) by {
                    if c <= counter && counter - c < 1024 {
                        let d = counter - c;
                        if d >= 64 {
                            assert(self.window@[d / 64] == shifted[d / 64]);
                        } else {
                            assert(d / 64 == 0 && d % 64 == d);
                            lemma_set_bit(shifted[0], 0, d as u64);
                        }
                        if d >= shift {
                            assert(d - shift == old(self).largest - c);
                        }
                        assert(window_bit(shifted, d as int) == (d >= shift && window_bit(
                            old(self).window@,
                            d - shift,
                        )));
                    }
                }
                assert(self@.seen =~= m0.seen.filter(|x: u64| counter - x < 1024).insert(counter));
            }
            return true;
        }
        let diff = self.largest - counter;
        if diff >= WINDOW_BITS as u64 {
            return false;
        }
        let w = (diff / 64) as usize;
        let b = (diff % 64) as u64;
        let mask: u64 = 1u64 << b;
        proof {
            lemma_set_bit(self.window@[w as int], b, b);
            assert(window_bit(self.window@, diff as int) == bit_of(self.window@[w as int], b));
        }
        if (self.window[w] & mask) != 0 {
            return false;
        }
        let nw = self.window[w] | mask;
        self.window[w] = nw;
        proof {
            assert forall|c: u64| #[trigger] self@.seen.contains(c) == (c == counter
                || m0.seen.contains(c)) by {
                if c <= self.largest && self.largest - c < 1024 {
                    let d = self.largest - c;
                    if d / 64 == w {
                        lemma_set_bit(old(self).window@[w as int], b, (d % 64) as u64);
                    } else {
                        assert(self.window@[d / 64] == old(self).window@[d / 64]);
                    }
                }
            }
            assert(self@.seen =~= m0.seen.insert(counter));
        }
        true
    }
}

// --- laws --------------------------------------------------------------------

/// Counter `c` has been accepted and the window still refuses it: either
/// it is marked inside the window or it has fallen below the window.
pub open spec fn refuses(m: ReplayModel, c: u64) -> bool {
    m.initialized && c <= m.largest && (m.largest - c >= 1024 || m.seen.contains(c))
}

/// A counter the window accepted is refused by every later check, whatever
/// counters arrive in between: once accepted, `c` stays refused, and a
/// check of a refused counter answers false and leaves the window as it is.
pub proof fn lemma_accepted_never_again(m: ReplayModel, c: u64, d: u64)
    requires
        spec_check(m, c).1,
        forall|x: u64| #[trigger] m.seen.contains(x) ==> x <= m.largest && m.largest - x < 1024,
    ensures
        refuses(spec_check(m, c).0, c),
        refuses(spec_check(m, c).0, c) ==> refuses(spec_check(spec_check(m, c).0, d).0, c),
        refuses(spec_check(m, c).0, c) ==> !spec_check(spec_check(m, c).0, c).1,
{
    let m1 = spec_check(m, c).0;
    lemma_refuses_kept(m1, c, d);
}

/// Once refused, a counter stays refused across any check, and its own
/// check answers false.
pub proof fn lemma_refuses_kept(m: ReplayModel, c: u64, d: u64)
    ensures
        refuses(m, c) ==> refuses(spec_check(m, d).0, c),
        refuses(m, c) ==> !spec_check(m, c).1 && spec_check(m, c).0 == m,
{
}

} // verus!
