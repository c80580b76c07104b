use vstd::prelude::*;
use crate::text::{all_digits, decimal, decimal_value, non_empty, non_empty_lines, parse_u64, split_at_first, split_once, trimmed_lines_of, u64_to_string, views};
use crate::ChallengeSolver;

verus! {

/// A directory: its path, the sizes of its files, and its subdirectories
/// (by index; each comes after its parent).
pub struct Dir {
    pub path: Vec<char>,
    pub files: Vec<u64>,
    pub children: Vec<usize>,
}

/// The directories seen in the terminal output, the root first.
pub struct Solver {
    dirs: Vec<Dir>,
}

pub type DirView = (Seq<char>, Seq<u64>, Seq<usize>);

pub open spec fn dir_view(d: Dir) -> DirView {
    (d.path@, d.files@, d.children@)
}

pub open spec fn dirs_view(v: Seq<Dir>) -> Seq<DirView> {
    v.map_values(|d: Dir| dir_view(d))
}

/// The words of a line, as split at spaces.
pub open spec fn words_scan(s: Seq<char>) -> (Seq<Seq<char>>, Seq<char>)
    decreases s.len(),
{
    if s.len() == 0 {
        (Seq::empty(), Seq::empty())
    } else {
        let (done, run) = words_scan(s.drop_last());
        let c = s.last();
        if c != ' ' {
            (done, run.push(c))
        } else if run.len() > 0 {
            (done.push(run), Seq::empty())
        } else {
            (done, Seq::empty())
        }
    }
}

pub open spec fn words(s: Seq<char>) -> Seq<Seq<char>> {
    let (done, run) = words_scan(s);
    if run.len() > 0 {
        done.push(run)
    } else {
        done
    }
}

pub open spec fn slash() -> Seq<char> {
    seq!['/']
}

/// The first directory with path `p`.
pub open spec fn find(ds: Seq<DirView>, p: Seq<char>) -> Option<int> {
    if exists|i: int| 0 <= i < ds.len() && ds[i].0 == p {
        Some(choose|i: int| 0 <= i < ds.len() && ds[i].0 == p && forall|j: int| 0 <= j < i ==> ds[j].0 != p)
    } else {
        None
    }
}

/// The place of the last `/` of `p`.
pub open spec fn last_slash(p: Seq<char>) -> Option<int> {
    if exists|i: int| 0 <= i < p.len() && p[i] == '/' {
        Some(choose|i: int| 0 <= i < p.len() && p[i] == '/' && forall|j: int| i < j < p.len() ==> p[j] != '/')
    } else {
        None
    }
}

/// One line of the terminal: `$ cd /` goes to the root, `$ cd ..` one
/// level up, `$ cd x` into `x`; other commands change nothing. `dir x`
/// records an empty directory under the current one (emptying one seen
/// before), and `size name` a file in it. `None` where the line cannot be
/// followed.
pub open spec fn follow(ds: Seq<DirView>, cwd: Seq<char>, t: Seq<char>) -> Option<(Seq<DirView>, Seq<char>)> {
    if t.len() > 0 && t[0] == '$' {
        match command(cwd, t) {
            Some(c) => Some((ds, c)),
            None => None,
        }
    } else {
        listing(ds, cwd, t)
    }
}

/// The current directory after a command line.
pub open spec fn command(cwd: Seq<char>, t: Seq<char>) -> Option<Seq<char>> {
    let w = words(t);
    if w.len() < 2 {
        None
    } else if w[1] == seq!['c', 'd'] {
        if w.len() < 3 {
            None
        } else if w[2] == slash() {
            Some(slash())
        } else if w[2] == seq!['.', '.'] {
            match last_slash(cwd) {
                Some(k) => Some(cwd.subrange(0, k)),
                None => None,
            }
        } else {
            Some(cwd + slash() + w[2])
        }
    } else {
        Some(cwd)
    }
}

/// The directories after a line of a listing.
pub open spec fn listing(ds: Seq<DirView>, cwd: Seq<char>, t: Seq<char>) -> Option<(Seq<DirView>, Seq<char>)> {
    match split_at_first(t, ' ') {
        Some(p) => match find(ds, cwd) {
            Some(c) => if p.0 == seq!['d', 'i', 'r'] {
                let key = cwd + slash() + p.1;
                match find(ds, key) {
                    Some(k) => {
                        let ds1 = ds.update(k, (key, Seq::empty(), Seq::empty()));
                        Some((ds1.update(c, (ds1[c].0, ds1[c].1, ds1[c].2.push(k as usize))), cwd))
                    },
                    None => {
                        let k = ds.len() as int;
                        let ds1 = ds.push((key, Seq::empty(), Seq::empty()));
                        Some((ds1.update(c, (ds1[c].0, ds1[c].1, ds1[c].2.push(k as usize))), cwd))
                    },
                }
            } else if p.0.len() > 0 && all_digits(p.0) && decimal_value(p.0) <= u64::MAX {
                Some((ds.update(c, (ds[c].0, ds[c].1.push(decimal_value(p.0) as u64), ds[c].2)), cwd))
            } else {
                None
            },
            None => None,
        },
        None => None,
    }
}

/// The directories and the current directory after the lines `ts`.
pub open spec fn replay(ts: Seq<Seq<char>>) -> Option<(Seq<DirView>, Seq<char>)>
    decreases ts.len(),
{
    if ts.len() == 0 {
        Some((seq![(slash(), Seq::<u64>::empty(), Seq::<usize>::empty())], Seq::empty()))
    } else {
        match replay(ts.drop_last()) {
            Some(st) => follow(st.0, st.1, ts.last()),
            None => None,
        }
    }
}

/// The directories once all lines are followed.
pub open spec fn final_dirs(ts: Seq<Seq<char>>) -> Seq<DirView> {
    match replay(ts) {
        Some(st) => st.0,
        None => Seq::empty(),
    }
}

/// Each directory's subdirectories come after it.
pub open spec fn ordered(ds: Seq<DirView>) -> bool {
    forall|i: int, k: int| 0 <= i < ds.len() && 0 <= k < ds[i].2.len() ==> i < #[trigger] ds[i].2[k] < ds.len()
}

pub open spec fn files_total(f: Seq<u64>) -> nat
    decreases f.len(),
{
    if f.len() == 0 {
        0
    } else {
        files_total(f.drop_last()) + f.last() as nat
    }
}

/// The size of directory `i`: its files and, in full, its subdirectories.
pub open spec fn dir_size(ds: Seq<DirView>, i: int) -> nat
    decreases ds.len() - i + 1, 0nat,
{
    if 0 <= i < ds.len() {
        files_total(ds[i].1) + kids_size(ds, i, ds[i].2.len() as int)
    } else {
        0
    }
}

/// The sizes of the first `k` subdirectories of directory `i`.
pub open spec fn kids_size(ds: Seq<DirView>, i: int, k: int) -> nat
    decreases ds.len() - i, k,
{
    if 0 <= i < ds.len() && 0 < k <= ds[i].2.len() {
        let c = ds[i].2[k - 1] as int;
        kids_size(ds, i, k - 1) + if i < c < ds.len() {
            dir_size(ds, c)
        } else {
            0
        }
    } else {
        0
    }
}

pub(crate) fn same_chars(a: &Vec<char>, b: &Vec<char>) -> (r: bool)
    ensures
        r == (a@ == b@),
{
    if a.len() != b.len() {
        return false;
    }
    let mut i: usize = 0;
    while i < a.len()
        invariant
            a@.len() == b@.len(),
            i <= a@.len(),
            forall|k: int| 0 <= k < i ==> a@[k] == b@[k],
        decreases a@.len() - i,
    {
        if a[i] != b[i] {
            return false;
        }
        i += 1;
    }
    assert(a@ =~= b@);
    true
}

fn chars2(a: char, b: char) -> (r: Vec<char>)
    ensures
        r@ == seq![a, b],
{
    let mut r: Vec<char> = Vec::new();
    r.push(a);
    r.push(b);
    assert(r@ =~= seq![a, b]);
    r
}

pub(crate) fn words_of(s: &Vec<char>) -> (r: Vec<Vec<char>>)
    ensures
        views(r@) == words(s@),
{
    let mut out: Vec<Vec<char>> = Vec::new();
    let mut run: Vec<char> = Vec::new();
    let mut i: usize = 0;
    assert(s@.subrange(0, 0) =~= Seq::<char>::empty());
    while i < s.len()
        invariant
            i <= s@.len(),
            words_scan(s@.subrange(0, i as int)) == (views(out@), run@),
        decreases s@.len() - i,
    {
        let c = s[i];
        assert(s@.subrange(0, i + 1).drop_last() =~= s@.subrange(0, i as int));
        let ghost before = views(out@);
        if c != ' ' {
            run.push(c);
        } else if run.len() > 0 {
            let ghost r = run@;
            out.push(run);
            run = Vec::new();
            assert(views(out@) =~= before.push(r));
        }
        i += 1;
    }
    assert(s@.subrange(0, i as int) =~= s@);
    if run.len() > 0 {
        let ghost before = views(out@);
        let ghost r = run@;
        out.push(run);
        assert(views(out@) =~= before.push(r));
    }
    out
}

fn find_dir(dirs: &Vec<Dir>, p: &Vec<char>) -> (r: Option<usize>)
    ensures
        r is None <==> find(dirs_view(dirs@), p@) is None,
        r matches Some(i) ==> find(dirs_view(dirs@), p@) == Some(i as int) && i < dirs@.len()
            && dirs@[i as int].path@ == p@,
{
    let ghost ds = dirs_view(dirs@);
    let mut i: usize = 0;
    while i < dirs.len()
        invariant
            ds == dirs_view(dirs@),
            i <= ds.len(),
            forall|j: int| 0 <= j < i ==> ds[j].0 != p@,
        decreases ds.len() - i,
    {
        assert(ds[i as int].0 == dirs@[i as int].path@);
        if same_chars(&dirs[i].path, p) {
            proof {
                let f = choose|f: int| 0 <= f < ds.len() && ds[f].0 == p@ && forall|j: int| 0 <= j < f ==> ds[j].0 != p@;
                if f < i {
                } else if f > i {
                    assert(ds[i as int].0 != p@);
                }
            }
            return Some(i);
        }
        i += 1;
    }
    None
}

fn find_last_slash(p: &Vec<char>) -> (r: Option<usize>)
    ensures
        r is None <==> last_slash(p@) is None,
        r matches Some(i) ==> last_slash(p@) == Some(i as int) && i < p@.len(),
{
    let mut i: usize = p.len();
    while i > 0
        invariant
            i <= p@.len(),
            forall|j: int| i <= j < p@.len() ==> p@[j] != '/',
        decreases i,
    {
        if p[i - 1] == '/' {
            proof {
                let k = (i - 1) as int;
                let f = choose|f: int| 0 <= f < p@.len() && p@[f] == '/' && forall|j: int| f < j < p@.len() ==> p@[j] != '/';
                if f < k {
                    assert(p@[k] != '/');
                } else if f > k {
                }
            }
            return Some(i - 1);
        }
        i -= 1;
    }
    None
}

fn joined(a: &Vec<char>, b: &Vec<char>) -> (r: Vec<char>)
    ensures
        r@ == a@ + slash() + b@,
{
    let mut r = a.clone();
    r.push('/');
    let mut i: usize = 0;
    let ghost base = a@ + slash();
    assert(r@ =~= base);
    while i < b.len()
        invariant
            i <= b@.len(),
            r@ == base + b@.subrange(0, i as int),
        decreases b@.len() - i,
    {
        r.push(b[i]);
        i += 1;
        assert(r@ =~= base + b@.subrange(0, i as int));
    }
    assert(b@.subrange(0, i as int) =~= b@);
    r
}

fn prefix(a: &Vec<char>, k: usize) -> (r: Vec<char>)
    requires
        k <= a@.len(),
    ensures
        r@ == a@.subrange(0, k as int),
{
    let mut r: Vec<char> = Vec::new();
    let mut i: usize = 0;
    while i < k
        invariant
            i <= k <= a@.len(),
            r@ == a@.subrange(0, i as int),
        decreases k - i,
    {
        r.push(a[i]);
        i += 1;
    }
    r
}

fn add_child(dirs: &mut Vec<Dir>, c: usize, k: usize)
    requires
        c < old(dirs)@.len(),
    ensures
        dirs_view(final(dirs)@) == dirs_view(old(dirs)@).update(
            c as int,
            (dirs_view(old(dirs)@)[c as int].0, dirs_view(old(dirs)@)[c as int].1, dirs_view(old(dirs)@)[c as int].2.push(k)),
        ),
{
    let ghost ds = dirs_view(dirs@);
    let mut ch = dirs[c].children.clone();
    ch.push(k);
    let d = Dir { path: dirs[c].path.clone(), files: dirs[c].files.clone(), children: ch };
    dirs.set(c, d);
    assert(dirs_view(dirs@) =~= ds.update(c as int, (ds[c as int].0, ds[c as int].1, ds[c as int].2.push(k))));
}

/// Follows a command line: the new current directory.
fn follow_command(cwd: &Vec<char>, t: &Vec<char>) -> (r: Vec<char>)
    requires
        command(cwd@, t@) is Some,
    ensures
        command(cwd@, t@) == Some(r@),
{
    let w = words_of(t);
    assert(views(w@)[1] == w@[1]@);
    let cd = chars2('c', 'd');
    if same_chars(&w[1], &cd) {
        assert(views(w@)[2] == w@[2]@);
        let target = &w[2];
        if target.len() == 1 && target[0] == '/' {
            assert(target@ =~= slash());
            let mut root: Vec<char> = Vec::new();
            root.push('/');
            assert(root@ =~= slash());
            root
        } else {
            assert(target@ != slash()) by {
                if target@ == slash() {
                    assert(target@[0] == '/');
                }
            }
            let up = chars2('.', '.');
            if same_chars(target, &up) {
                let k = find_last_slash(cwd).unwrap();
                let r = prefix(cwd, k);
                assert(command(cwd@, t@) == Some(r@));
                r
            } else {
                let r = joined(cwd, target);
                assert(command(cwd@, t@) == Some(r@));
                r
            }
        }
    } else {
        let r = cwd.clone();
        assert(r@ == cwd@);
        r
    }
}

/// Follows a line of a listing.
#[verifier::rlimit(60)]
fn follow_listing(dirs: &mut Vec<Dir>, cwd: &Vec<char>, t: &Vec<char>)
    requires
        listing(dirs_view(old(dirs)@), cwd@, t@) is Some,
    ensures
        listing(dirs_view(old(dirs)@), cwd@, t@) == Some((dirs_view(final(dirs)@), cwd@)),
{
    let ghost ds = dirs_view(dirs@);
    let (info, name) = split_once(t, ' ').unwrap();
    let c = find_dir(dirs, cwd).unwrap();
    if info.len() == 3 && info[0] == 'd' && info[1] == 'i' && info[2] == 'r' {
        assert(info@ =~= seq!['d', 'i', 'r']);
        let key = joined(cwd, &name);
        match find_dir(dirs, &key) {
            Some(k) => {
                dirs.set(k, Dir { path: key, files: Vec::new(), children: Vec::new() });
                proof {
                    assert(dirs_view(dirs@) =~= ds.update(k as int, (cwd@ + slash() + name@, Seq::empty(), Seq::empty())));
                }
                add_child(dirs, c, k);
            },
            None => {
                let k = dirs.len();
                dirs.push(Dir { path: key, files: Vec::new(), children: Vec::new() });
                proof {
                    assert(dirs_view(dirs@) =~= ds.push((cwd@ + slash() + name@, Seq::empty(), Seq::empty())));
                }
                add_child(dirs, c, k);
            },
        }
    } else {
        assert(info@ != seq!['d', 'i', 'r']) by {
            if info@ == seq!['d', 'i', 'r'] {
                assert(info@.len() == 3 && info@[0] == 'd' && info@[1] == 'i' && info@[2] == 'r');
            }
        }
        let size = parse_u64(&info).unwrap();
        let mut fs = dirs[c].files.clone();
        fs.push(size);
        let d = Dir { path: dirs[c].path.clone(), files: fs, children: dirs[c].children.clone() };
        dirs.set(c, d);
        assert(dirs_view(dirs@) =~= ds.update(c as int, (ds[c as int].0, ds[c as int].1.push(size), ds[c as int].2)));
    }
}
proof fn lemma_replay_prefix(ts: Seq<Seq<char>>, k: int)
    requires
        0 <= k <= ts.len(),
        replay(ts) is Some,
    ensures
        replay(ts.subrange(0, k)) is Some,
    decreases ts.len() - k,
{
    if k < ts.len() {
        lemma_replay_prefix(ts, k + 1);
        assert(ts.subrange(0, k + 1).drop_last() =~= ts.subrange(0, k));
    } else {
        assert(ts.subrange(0, k) =~= ts);
    }
}

proof fn lemma_files_prefix(f: Seq<u64>, k: int)
    requires
        0 <= k <= f.len(),
    ensures
        files_total(f.subrange(0, k)) <= files_total(f),
    decreases f.len() - k,
{
    if k < f.len() {
        lemma_files_prefix(f, k + 1);
        assert(f.subrange(0, k + 1).drop_last() =~= f.subrange(0, k));
    } else {
        assert(f.subrange(0, k) =~= f);
    }
}

proof fn lemma_kids_prefix(ds: Seq<DirView>, i: int, k: int)
    requires
        0 <= i < ds.len(),
        0 <= k <= ds[i].2.len(),
    ensures
        kids_size(ds, i, k) <= kids_size(ds, i, ds[i].2.len() as int),
    decreases ds[i].2.len() - k,
{
    if k < ds[i].2.len() {
        lemma_kids_prefix(ds, i, k + 1);
    }
}

/// The total size of the directories of at most 100000, over the first `m`.
pub open spec fn small_total(ds: Seq<DirView>, m: int) -> nat
    decreases m,
{
    if m <= 0 {
        0
    } else {
        small_total(ds, m - 1) + if dir_size(ds, m - 1) <= 100000 {
            dir_size(ds, m - 1)
        } else {
            0
        }
    }
}

/// The smallest size of at least `req` among the first `m` directories;
/// `u64::MAX` where there is none.
pub open spec fn smallest_at_least(ds: Seq<DirView>, req: int, m: int) -> nat
    decreases m,
{
    if m <= 0 {
        u64::MAX as nat
    } else {
        let a = smallest_at_least(ds, req, m - 1);
        let s = dir_size(ds, m - 1);
        if s >= req && s < a {
            s
        } else {
            a
        }
    }
}

pub open spec fn sizes_fit(ds: Seq<DirView>) -> bool {
    forall|i: int| 0 <= i < ds.len() ==> #[trigger] dir_size(ds, i) <= u64::MAX
}

impl Solver {
    pub closed spec fn view(&self) -> Seq<DirView> {
        dirs_view(self.dirs@)
    }

    /// Replays the terminal output: the commands and the listings.
    pub fn new(input: String) -> (r: Solver)
        requires
            forall|ts: Seq<Seq<char>>| trimmed_lines_of(ts, input@) ==> replay(non_empty(ts)) is Some,
        ensures
            exists|ts: Seq<Seq<char>>| trimmed_lines_of(ts, input@) && r@ == final_dirs(non_empty(ts)),
    {
        let rows = non_empty_lines(input.as_str());
        let ghost rv = views(rows@);
        let mut dirs: Vec<Dir> = Vec::new();
        let mut root: Vec<char> = Vec::new();
        root.push('/');
        dirs.push(Dir { path: root, files: Vec::new(), children: Vec::new() });
        let mut cwd: Vec<char> = Vec::new();
        assert(rv.subrange(0, 0) =~= Seq::<Seq<char>>::empty());
        assert(dirs_view(dirs@) =~= seq![(slash(), Seq::<u64>::empty(), Seq::<usize>::empty())]);
        assert(cwd@ =~= Seq::<char>::empty());
        let mut i: usize = 0;
        while i < rows.len()
            invariant
                rv == views(rows@),
                replay(rv) is Some,
                i <= rv.len(),
                replay(rv.subrange(0, i as int)) == Some((dirs_view(dirs@), cwd@)),
            decreases rv.len() - i,
        {
            proof {
                lemma_replay_prefix(rv, i + 1);
                assert(rv.subrange(0, i + 1).drop_last() =~= rv.subrange(0, i as int));
            }
            assert(rv[i as int] == rows@[i as int]@);
            let t = &rows[i];
            if t.len() > 0 && t[0] == '$' {
                let next = follow_command(&cwd, t);
                cwd = next;
            } else {
                follow_listing(&mut dirs, &cwd, t);
            }
            i += 1;
        }
        assert(rv.subrange(0, i as int) =~= rv);
        Solver { dirs }
    }

    /// The size of directory `i`.
    fn get_dir_size(&self, i: usize) -> (r: u64)
        requires
            ordered(self@),
            sizes_fit(self@),
            i < self@.len(),
        ensures
            r == dir_size(self@, i as int),
        decreases self@.len() - i,
    {
        let ghost ds = self@;
        let d = &self.dirs[i];
        assert(ds[i as int] == dir_view(*d));
        let ghost f = d.files@;
        assert(dir_size(ds, i as int) <= u64::MAX);
        proof {
            lemma_kids_prefix(ds, i as int, 0);
        }
        let mut acc: u64 = 0;
        let mut k: usize = 0;
        assert(f.subrange(0, 0) =~= Seq::<u64>::empty());
        while k < d.files.len()
            invariant
                f == d.files@,
                ds == self@,
                i < ds.len(),
                ds[i as int] == dir_view(*d),
                dir_size(ds, i as int) <= u64::MAX,
                k <= f.len(),
                acc == files_total(f.subrange(0, k as int)),
            decreases f.len() - k,
        {
            proof {
                lemma_files_prefix(f, k + 1);
                assert(f.subrange(0, k + 1).drop_last() =~= f.subrange(0, k as int));
            }
            acc = acc + d.files[k];
            k += 1;
        }
        assert(f.subrange(0, k as int) =~= f);
        let ghost ch = d.children@;
        let mut j: usize = 0;
        while j < d.children.len()
            invariant
                ch == d.children@,
                f == d.files@,
                ds == self@,
                ordered(ds),
                sizes_fit(ds),
                i < ds.len(),
                ds[i as int] == dir_view(*d),
                dir_size(ds, i as int) <= u64::MAX,
                j <= ch.len(),
                acc == files_total(f) + kids_size(ds, i as int, j as int),
            decreases ch.len() - j,
        {
            let c = d.children[j];
            assert(i < ds[i as int].2[j as int] < ds.len());
            proof {
                lemma_kids_prefix(ds, i as int, j + 1);
            }
            let sz = self.get_dir_size(c);
            assert(kids_size(ds, i as int, j + 1) == kids_size(ds, i as int, j as int) + dir_size(ds, c as int));
            assert(dir_size(ds, i as int) == files_total(f) + kids_size(ds, i as int, ch.len() as int));
            acc = acc + sz;
            j += 1;
        }
        acc
    }

    /// The space still to free before the update fits, with `in_use` taken
    /// on a disk of 70000000 that needs 30000000 free.
    pub fn get_required_space(in_use: u64) -> (r: u64)
        requires
            40000000 <= in_use <= 70000000,
        ensures
            r == 30000000 - (70000000 - in_use),
    {
        let total_available_space: u64 = 70000000;
        let total_required_space: u64 = 30000000;
        total_required_space - (total_available_space - in_use)
    }
}

impl ChallengeSolver for Solver {
    open spec fn solvable_a(&self) -> bool {
        &&& ordered(self@)
        &&& sizes_fit(self@)
        &&& 1 <= self@.len() < 0x1_0000_0000
    }

    open spec fn solvable_b(&self) -> bool {
        &&& ordered(self@)
        &&& sizes_fit(self@)
        &&& 1 <= self@.len() < 0x1_0000_0000
        &&& 40000000 <= dir_size(self@, 0) <= 70000000
    }

    open spec fn answer_a(&self) -> Seq<char> {
        decimal(small_total(self@, self@.len() as int))
    }

    open spec fn answer_b(&self) -> Seq<char> {
        decimal(smallest_at_least(self@, 30000000 - (70000000 - dir_size(self@, 0)), self@.len() as int))
    }

    /// The total size of the directories of at most 100000.
    fn get_part_a_result(&self) -> (r: String) {
        let n = self.dirs.len();
        let mut acc: u64 = 0;
        let mut i: usize = 0;
        while i < n
            invariant
                self.solvable_a(),
                n == self@.len(),
                i <= n,
                acc == small_total(self@, i as int),
                acc <= 100000 * i,
            decreases n - i,
        {
            let sz = self.get_dir_size(i);
            if sz <= 100000 {
                acc = acc + sz;
            }
            i += 1;
        }
        u64_to_string(acc)
    }

    /// The size of the smallest directory whose removal frees enough space.
    fn get_part_b_result(&self) -> (r: String) {
        let n = self.dirs.len();
        let req = Solver::get_required_space(self.get_dir_size(0));
        let mut best: u64 = u64::MAX;
        let mut i: usize = 0;
        while i < n
            invariant
                self.solvable_b(),
                n == self@.len(),
                i <= n,
                req == 30000000 - (70000000 - dir_size(self@, 0)),
                best == smallest_at_least(self@, req as int, i as int),
            decreases n - i,
        {
            let sz = self.get_dir_size(i);
            if sz >= req && sz < best {
                best = sz;
            }
            i += 1;
        }
        u64_to_string(best)
    }
}

} // verus!
