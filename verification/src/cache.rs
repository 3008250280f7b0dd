//! Sampling how much of a file the page cache holds.
use vstd::prelude::*;

verus! {

pub const PROBE_WINDOW_BYTES: u64 = 0x10_0000;

pub const MAX_PROBE_PAGES: u64 = 16384;

pub const MAX_PROBE_WINDOWS: u64 = 64;

/// The size of a page, from what the system reports of it.
pub fn page_size(reported: i64) -> (r: u64)
    ensures
        r == (if reported <= 0 {
            4096
        } else {
            reported as int
        }),
{
    if reported <= 0 {
        4096
    } else {
        reported as u64
    }
}

/// The bytes of a window, for a file of `size` bytes.
pub open spec fn window_of(size: u64, page: u64) -> u64 {
    let w = if PROBE_WINDOW_BYTES < size {
        PROBE_WINDOW_BYTES
    } else {
        size
    };
    if w < page {
        page
    } else {
        w
    }
}

/// The number of windows, at most a fixed number.
pub open spec fn window_count(size: u64, window: u64) -> int {
    let n = (size + window - 1) / window as int;
    if n < 1 {
        1
    } else if n > MAX_PROBE_WINDOWS {
        MAX_PROBE_WINDOWS as int
    } else {
        n
    }
}

/// How far apart windows start.
pub open spec fn window_step(size: u64, window: u64) -> int {
    let s = size as int / window_count(size, window);
    if s < window {
        window as int
    } else {
        s
    }
}

/// The number of pages whose flag says that they are in memory.
pub open spec fn resident_pages(flags: Seq<u8>) -> nat
    decreases flags.len(),
{
    if flags.len() == 0 {
        0
    } else {
        resident_pages(flags.drop_last()) + (if flags.last() % 2 == 1 {
            1nat
        } else {
            0
        })
    }
}

/// A sampling of a file, window by window.
pub struct Probe {
    pub size: u64,
    pub page: u64,
    pub window: u64,
    pub step: u64,
    pub off: u64,
    pub resident: u64,
    pub total: u64,
}

impl Probe {
    pub open spec fn wf(&self) -> bool {
        &&& 0 < self.page <= self.window
        &&& self.window == window_of(self.size, self.page)
        &&& self.step == window_step(self.size, self.window)
        &&& self.resident <= self.total
    }

    /// The bytes of the next window: whole pages, inside the file. None when the
    /// sampling is over.
    pub open spec fn next_window(&self) -> Option<u64> {
        if self.off >= self.size || self.total >= MAX_PROBE_PAGES {
            None
        } else {
            let left = (self.size - self.off) as u64;
            let len = if self.window < left {
                self.window
            } else {
                left
            };
            let whole = (len - len % self.page) as u64;
            if whole == 0 {
                None
            } else {
                Some(whole)
            }
        }
    }

    /// Starts sampling a file that is not empty.
    pub fn new(size: u64, page: u64) -> (r: Probe)
        requires
            size > 0,
            page > 0,
        ensures
            r.wf(),
            r.size == size,
            r.page == page,
            r.off == 0,
            r.resident == 0,
            r.total == 0,
    {
        let mut window: u64 = if PROBE_WINDOW_BYTES < size {
            PROBE_WINDOW_BYTES
        } else {
            size
        };
        if window < page {
            window = page;
        }
        let mut count: u64 = size / window;
        proof {
            let q = size as int / window as int;
            let r = size as int % window as int;
            vstd::arithmetic::div_mod::lemma_fundamental_div_mod(size as int, window as int);
            vstd::arithmetic::mul::lemma_mul_is_commutative(window as int, q);
            if r == 0 {
                vstd::arithmetic::div_mod::lemma_fundamental_div_mod_converse(
                    size + window - 1,
                    window as int,
                    q,
                    window - 1,
                );
            } else {
                assert((q + 1) * window == q * window + window) by (nonlinear_arith);
                vstd::arithmetic::div_mod::lemma_fundamental_div_mod_converse(
                    size + window - 1,
                    window as int,
                    q + 1,
                    r - 1,
                );
            }
            assert(q <= size) by (nonlinear_arith)
                requires
                    size == q * window + r,
                    r >= 0,
                    window >= 1,
                    q >= 0,
            ;
            if r != 0 && q == u64::MAX {
                assert(q * window >= q) by (nonlinear_arith)
                    requires
                        window >= 1,
                        q >= 0,
                ;
            }
        }
        if size % window != 0 {
            count = count + 1;
        }
        if count < 1 {
            count = 1;
        } else if count > MAX_PROBE_WINDOWS {
            count = MAX_PROBE_WINDOWS;
        }
        let mut step: u64 = size / count;
        if step < window {
            step = window;
        }
        Probe { size, page, window, step, off: 0, resident: 0, total: 0 }
    }

    /// The bytes of the next window to look at.
    pub fn next_len(&self) -> (r: Option<u64>)
        requires
            self.wf(),
        ensures
            r == self.next_window(),
            r is Some ==> r->Some_0 % self.page == 0 && self.off + r->Some_0 <= self.size
                && 0 < r->Some_0 <= self.window,
    {
        if self.off >= self.size || self.total >= MAX_PROBE_PAGES {
            return None;
        }
        let left: u64 = self.size - self.off;
        let len: u64 = if self.window < left {
            self.window
        } else {
            left
        };
        proof {
            vstd::arithmetic::div_mod::lemma_mod_decreases(len as nat, self.page as nat);
            vstd::arithmetic::div_mod::lemma_fundamental_div_mod(len as int, self.page as int);
            vstd::arithmetic::mul::lemma_mul_is_commutative(
                self.page as int,
                len as int / self.page as int,
            );
            vstd::arithmetic::div_mod::lemma_mod_multiples_basic(
                len as int / self.page as int,
                self.page as int,
            );
        }
        let whole: u64 = len - len % self.page;
        if whole == 0 {
            None
        } else {
            Some(whole)
        }
    }

    /// Takes the flags of the window's pages, when they could be had, and moves on to
    /// the next window.
    pub fn record(&mut self, flags: Option<&[u8]>)
        requires
            old(self).wf(),
            old(self).off + old(self).step <= u64::MAX,
            flags matches Some(f) ==> old(self).total + f@.len() <= u64::MAX,
        ensures
            final(self).wf(),
            final(self).off == old(self).off + old(self).step,
            final(self).size == old(self).size,
            final(self).page == old(self).page,
            match flags {
                Some(f) => final(self).resident == old(self).resident + resident_pages(f@)
                    && final(self).total == old(self).total + f@.len(),
                None => final(self).resident == old(self).resident && final(self).total
                    == old(self).total,
            },
    {
        match flags {
            Some(f) => {
                let mut n: u64 = 0;
                let mut i: usize = 0;
                assert(f@.take(0) =~= Seq::empty());
                while i < f.len()
                    invariant
                        i <= f.len(),
                        n == resident_pages(f@.take(i as int)),
                        n <= i,
                    decreases f.len() - i,
                {
                    proof {
                        let next = f@.take(i as int + 1);
                        assert(next.drop_last() =~= f@.take(i as int));
                    }
                    if f[i] % 2 == 1 {
                        n += 1;
                    }
                    i += 1;
                }
                assert(f@.take(f@.len() as int) =~= f@);
                self.resident = self.resident + n;
                self.total = self.total + f.len() as u64;
            },
            None => {},
        }
        self.off = self.off + self.step;
    }
}

/// Pages in memory are counted by the lowest bit of their flags: the count is how many
/// flags are left when the even ones are taken out.
pub proof fn odd_flags_are_counted(flags: Seq<u8>)
    ensures
        resident_pages(flags) == flags.filter(|f: u8| f % 2 == 1).len(),
        resident_pages(flags) <= flags.len(),
    decreases flags.len(),
{
    reveal(Seq::filter);
    if flags.len() > 0 {
        odd_flags_are_counted(flags.drop_last());
    }
}

/// The windows of a sampling do not overlap, hold at least a page, and hold a mebibyte of
/// a file that has one; a file of a single window is looked at as a whole.
pub proof fn windows_stand_apart(p: Probe)
    requires
        p.wf(),
        p.size > 0,
    ensures
        p.step >= p.window >= p.page,
        p.size >= 0x10_0000 && p.page <= 0x10_0000 ==> p.window == 0x10_0000,
        p.size < 0x10_0000 && p.page <= p.size ==> p.window == p.size,
        p.next_window() matches Some(n) ==> 0 < n <= p.window && p.off + n <= p.size && n % p.page
            == 0,
        p.size <= p.window ==> p.step >= p.size,
{
    match p.next_window() {
        Some(n) => {
            let left = p.size - p.off;
            let len = if p.window < left {
                p.window as int
            } else {
                left
            };
            vstd::arithmetic::div_mod::lemma_fundamental_div_mod(len, p.page as int);
            let q = len / p.page as int;
            vstd::arithmetic::mul::lemma_mul_is_commutative(p.page as int, q);
            vstd::arithmetic::div_mod::lemma_mod_multiples_basic(q, p.page as int);
        },
        None => {},
    }
}

/// A file of few windows is looked at as a whole, one window after another. Of a larger
/// one a window is taken out of each of as many equal parts as there may be windows.
pub proof fn windows_are_spread_evenly(size: u64, window: u64)
    requires
        size > 0,
        window > 0,
    ensures
        size <= MAX_PROBE_WINDOWS * window ==> window_step(size, window) == window,
        size > MAX_PROBE_WINDOWS * window ==> {
            &&& window_step(size, window) >= window
            &&& window_step(size, window) * MAX_PROBE_WINDOWS <= size
            &&& size < (window_step(size, window) + 1) * MAX_PROBE_WINDOWS
        },
{
    let m = MAX_PROBE_WINDOWS as int;
    let w = window as int;
    let z = size as int;
    let n = (z + w - 1) / w;
    vstd::arithmetic::div_mod::lemma_fundamental_div_mod(z + w - 1, w);
    assert(w * n <= z + w - 1 < w * n + w);
    assert(n >= 1) by (nonlinear_arith)
        requires
            z > 0,
            w > 0,
            z + w - 1 < w * n + w,
    ;
    if z <= m * w {
        assert(n <= m) by (nonlinear_arith)
            requires
                w * n <= z + w - 1,
                z <= m * w,
                w > 0,
        ;
        let s = z / n;
        vstd::arithmetic::div_mod::lemma_fundamental_div_mod(z, n);
        assert(s <= w) by (nonlinear_arith)
            requires
                n * s <= z,
                z <= w * n,
                n >= 1,
        ;
    } else {
        assert(n > m) by (nonlinear_arith)
            requires
                z + w - 1 < w * n + w,
                z > m * w,
                w > 0,
        ;
        let s = z / m;
        vstd::arithmetic::div_mod::lemma_fundamental_div_mod(z, m);
        assert(s >= w) by (nonlinear_arith)
            requires
                z < m * s + m,
                z > m * w,
                m > 0,
        ;
        assert(s * m <= z < (s + 1) * m) by (nonlinear_arith)
            requires
                m * s <= z < m * s + m,
        ;
    }
}

/// There is a next window exactly if a whole page of the file is left and fewer than 16384
/// pages were looked at; it has all whole pages that are left, up to a window.
pub proof fn sampling_stops_at_the_last_page(p: Probe)
    requires
        p.wf(),
    ensures
        p.next_window() is Some <==> p.off + p.page <= p.size && p.total < 16384,
        p.next_window() matches Some(n) ==> {
            let most = if p.size - p.off > p.window {
                p.window as int
            } else {
                p.size - p.off
            };
            n <= most < n + p.page
        },
{
    if p.off < p.size {
        let left = p.size - p.off;
        let len = if p.window < left {
            p.window as int
        } else {
            left
        };
        vstd::arithmetic::div_mod::lemma_fundamental_div_mod(len, p.page as int);
        let rest = len % p.page as int;
        if len < p.page {
            vstd::arithmetic::div_mod::lemma_small_mod(len as nat, p.page as nat);
        } else {
            vstd::arithmetic::div_mod::lemma_mod_pos_bound(len, p.page as int);
        }
    }
}

} // verus!
