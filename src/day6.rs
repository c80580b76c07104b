use vstd::prelude::*;
use crate::text::{chars_of, decimal, is_trim_of, trim, u64_to_string};
use crate::ChallengeSolver;

verus! {

/// The datastream, trimmed of blanks at both ends.
pub struct Solver {
    input: Vec<char>,
}

/// The `w` characters from `i` on are all different.
pub open spec fn distinct_window(s: Seq<char>, i: int, w: int) -> bool {
    0 <= i && i + w <= s.len() && forall|a: int, b: int|
        i <= a < i + w && i <= b < i + w && a != b ==> s[a] != s[b]
}

pub open spec fn has_window(s: Seq<char>, w: int) -> bool {
    exists|i: int| distinct_window(s, i, w)
}

/// Where the first window of `w` different characters ends.
pub open spec fn first_window_end(s: Seq<char>, w: int) -> int {
    first_window_start(s, w) + w
}

pub open spec fn first_window_start(s: Seq<char>, w: int) -> int {
    choose|i: int|
        distinct_window(s, i, w) && forall|j: int| 0 <= j < i ==> !distinct_window(s, j, w)
}

impl Solver {
    pub closed spec fn view(&self) -> Seq<char> {
        self.input@
    }

    pub fn new(input: String) -> (r: Solver)
        ensures
            is_trim_of(r@, input@),
    {
        let cs = chars_of(input.as_str());
        Solver { input: trim(&cs) }
    }

    fn window_is_distinct(&self, i: usize, w: usize) -> (r: bool)
        requires
            i + w <= self@.len(),
        ensures
            r == distinct_window(self@, i as int, w as int),
    {
        let s = &self.input;
        let n = s.len();
        assert(self@ == s@);
        let end = i + w;
        let mut a: usize = i;
        while a < end
            invariant
                i <= a <= i + w,
                end == i + w,
                i + w <= s@.len(),
                self@ == s@,
                forall|x: int, y: int| i <= x < a && i <= y < i + w && x != y ==> s@[x] != s@[y],
            decreases i + w - a,
        {
            let mut b: usize = i;
            while b < end
                invariant
                    i <= a < i + w,
                    i <= b <= i + w,
                    end == i + w,
                    i + w <= s@.len(),
                    self@ == s@,
                    forall|y: int| i <= y < b && a != y ==> s@[a as int] != s@[y],
                decreases i + w - b,
            {
                if a != b && s[a] == s[b] {
                    assert(s@[a as int] == s@[b as int]);
                    return false;
                }
                b += 1;
            }
            a += 1;
        }
        true
    }

    /// Where the first run of `window_size` different characters ends.
    pub fn find_window_with_unique_chars_index(&self, window_size: usize) -> (r: usize)
        requires
            window_size > 0,
            has_window(self@, window_size as int),
        ensures
            r == first_window_end(self@, window_size as int),
    {
        let w = window_size;
        let n = self.input.len();
        let ghost s = self@;
        assert(s == self.input@);
        let mut i: usize = 0;
        loop
            invariant
                has_window(s, w as int),
                s == self@,
                w == window_size,
                n == s.len(),
                i <= n,
                forall|j: int| 0 <= j < i ==> !distinct_window(s, j, w as int),
            decreases n - i,
        {
            let ghost wit = choose|k: int| distinct_window(s, k, w as int);
            assert(i <= wit);
            if self.window_is_distinct(i, w) {
                let r = i + w;
                assert(first_window_start(s, w as int) == i) by {
                    let e = first_window_start(s, w as int);
                    assert(distinct_window(s, i as int, w as int) && forall|j: int|
                        0 <= j < i ==> !distinct_window(s, j, w as int));
                    if e < i {
                        assert(!distinct_window(s, e, w as int));
                    } else if e > i {
                        assert(!distinct_window(s, i as int, w as int));
                    }
                }
                assert(r == first_window_end(s, w as int));
                return r;
            }
            assert(i < wit);
            i += 1;
        }
    }
}

impl ChallengeSolver for Solver {
    open spec fn solvable_a(&self) -> bool {
        has_window(self@, 4)
    }

    open spec fn solvable_b(&self) -> bool {
        has_window(self@, 14)
    }

    open spec fn answer_a(&self) -> Seq<char> {
        decimal(first_window_end(self@, 4) as nat)
    }

    open spec fn answer_b(&self) -> Seq<char> {
        decimal(first_window_end(self@, 14) as nat)
    }

    /// Where the start-of-packet marker ends.
    fn get_part_a_result(&self) -> (r: String) {
        u64_to_string(self.find_window_with_unique_chars_index(4) as u64)
    }

    /// Where the start-of-message marker ends.
    fn get_part_b_result(&self) -> (r: String) {
        u64_to_string(self.find_window_with_unique_chars_index(14) as u64)
    }
}

} // verus!
