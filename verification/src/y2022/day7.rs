//! A tree of directories and files, built from the log of a terminal, and
//! the sizes of its directories.

use crate::text::{bytes_eq, parse_int, parse_usize, split, split_on, views};
use vstd::prelude::*;
use vstd::string::*;

verus! {

/// The tree could not be built: a name was no plain name, a directory
/// was made twice or entered before it was made, or a file and a
/// directory had one name.
#[derive(Debug, PartialEq, Eq)]
pub struct VfsError;

/// A directory or a file: the place of the directory that holds it, its
/// name, and for a file what is written in it.
#[derive(Debug, Clone, PartialEq, Eq)]
pub struct Entry {
    pub parent: usize,
    pub name: Vec<u8>,
    pub is_dir: bool,
    pub content: Vec<u8>,
}

/// An entry as a value of mathematics.
pub struct Item {
    pub parent: int,
    pub name: Seq<u8>,
    pub is_dir: bool,
    pub content: Seq<u8>,
}

impl Entry {
    /// The entry as a value of mathematics.
    pub open spec fn view(&self) -> Item {
        Item {
            parent: self.parent as int,
            name: self.name@,
            is_dir: self.is_dir,
            content: self.content@,
        }
    }
}

/// The entries as values of mathematics.
pub open spec fn items(entries: Seq<Entry>) -> Seq<Item> {
    Seq::new(entries.len(), |i: int| entries[i]@)
}

/// The entries are a tree: the first is the root, a directory that holds
/// itself, and every other lies in a directory that comes before it.
pub open spec fn is_tree(t: Seq<Item>) -> bool {
    &&& t.len() >= 1
    &&& t[0].is_dir
    &&& t[0].parent == 0
    &&& forall|i: int|
        1 <= i < t.len() ==> 0 <= (#[trigger] t[i]).parent < i && t[t[i].parent].is_dir
}

/// The first place from `k` on of an entry of directory `dir` with the
/// name `name`, or the number of entries where there is none. The root
/// is an entry of no directory.
pub open spec fn child_named(t: Seq<Item>, dir: int, name: Seq<u8>, k: int) -> int
    decreases t.len() - k,
{
    if k < 1 || k >= t.len() {
        t.len() as int
    } else if t[k].parent == dir && t[k].name == name {
        k
    } else {
        child_named(t, dir, name, k + 1)
    }
}

/// Whether `name` is a plain name: not empty, no `.` or `..`, and
/// without a stroke.
pub open spec fn is_plain(name: Seq<u8>) -> bool {
    &&& name.len() > 0
    &&& name != seq![46u8]
    &&& name != seq![46u8, 46u8]
    &&& forall|i: int| 0 <= i < name.len() ==> #[trigger] name[i] != 47
}

/// A tree and the directory in which the terminal is.
pub struct Shell {
    pub t: Seq<Item>,
    pub curr: int,
}

/// What a line of the log does.
pub enum Done {
    /// The tree and the directory after the line.
    Next(Shell),
    /// The tree cannot be built.
    Failed,
    /// The line is none that a log has.
    Unknown,
}

/// What the line does to the tree: `$ ls` and an empty line nothing;
/// `$ cd /` goes to the root, `$ cd ..` to the directory above, `$ cd`
/// with a name to that directory; `dir` with a name makes a directory;
/// any other two words make a file with the second as its name and the
/// first written in it, in place of a file of that name.
pub open spec fn after_line(s: Shell, line: Seq<u8>) -> Done {
    let w = split_on(line, seq![32u8]);
    if w.len() == 2 && w[0] == seq![36u8] && w[1] == seq![108u8, 115u8] {
        Done::Next(s)
    } else if w.len() == 3 && w[0] == seq![36u8] && w[1] == seq![99u8, 100u8] {
        if w[2] == seq![47u8] {
            Done::Next(Shell { t: s.t, curr: 0 })
        } else if w[2] == seq![46u8, 46u8] {
            Done::Next(Shell { t: s.t, curr: s.t[s.curr].parent })
        } else {
            let at = child_named(s.t, s.curr, w[2], 1);
            if is_plain(w[2]) && at < s.t.len() && s.t[at].is_dir {
                Done::Next(Shell { t: s.t, curr: at })
            } else {
                Done::Failed
            }
        }
    } else if w.len() == 2 && w[0] == seq![100u8, 105u8, 114u8] {
        if is_plain(w[1]) && child_named(s.t, s.curr, w[1], 1) >= s.t.len() {
            Done::Next(
                Shell {
                    t: s.t.push(
                        Item { parent: s.curr, name: w[1], is_dir: true, content: Seq::empty() },
                    ),
                    curr: s.curr,
                },
            )
        } else {
            Done::Failed
        }
    } else if w.len() == 2 {
        let at = child_named(s.t, s.curr, w[1], 1);
        if !is_plain(w[1]) {
            Done::Failed
        } else if at >= s.t.len() {
            Done::Next(
                Shell {
                    t: s.t.push(
                        Item { parent: s.curr, name: w[1], is_dir: false, content: w[0] },
                    ),
                    curr: s.curr,
                },
            )
        } else if s.t[at].is_dir {
            Done::Failed
        } else {
            Done::Next(
                Shell {
                    t: s.t.update(
                        at,
                        Item { parent: s.curr, name: w[1], is_dir: false, content: w[0] },
                    ),
                    curr: s.curr,
                },
            )
        }
    } else if w.len() == 1 && w[0].len() == 0 {
        Done::Next(s)
    } else {
        Done::Unknown
    }
}

/// What the first `k` lines of the log do to the tree that has only its
/// root.
pub open spec fn after_lines(ls: Seq<Seq<u8>>, k: nat) -> Done
    decreases k,
{
    if k == 0 {
        Done::Next(
            Shell {
                t: seq![Item { parent: 0, name: Seq::empty(), is_dir: true, content: Seq::empty() }],
                curr: 0,
            },
        )
    } else {
        match after_lines(ls, (k - 1) as nat) {
            Done::Next(s) => after_line(s, ls[k - 1]),
            other => other,
        }
    }
}

/// The lines of a log: what stands between line feeds.
pub open spec fn log_lines(s: Seq<u8>) -> Seq<Seq<u8>> {
    split_on(s, seq![10u8])
}

/// The shell stands in a directory of a tree.
pub open spec fn shell_ok(s: Shell) -> bool {
    is_tree(s.t) && 0 <= s.curr < s.t.len() && s.t[s.curr].is_dir
}

/// A line leaves the shell in a directory of a tree.
pub proof fn lemma_after_line(s: Shell, line: Seq<u8>)
    requires
        shell_ok(s),
    ensures
        after_line(s, line) is Next ==> shell_ok(after_line(s, line)->Next_0),
{
    let w = split_on(line, seq![32u8]);
    if w.len() == 3 {
        lemma_child(s.t, s.curr, w[2], 1);
    }
    if w.len() == 2 {
        lemma_child(s.t, s.curr, w[1], 1);
    }
}

/// Where an entry is found, it is an entry of the directory with that
/// name.
pub proof fn lemma_child(t: Seq<Item>, dir: int, name: Seq<u8>, k: int)
    requires
        1 <= k <= t.len(),
    ensures
        k <= child_named(t, dir, name, k) <= t.len(),
        child_named(t, dir, name, k) < t.len() ==> t[child_named(t, dir, name, k)].parent == dir
            && t[child_named(t, dir, name, k)].name == name,
    decreases t.len() - k,
{
    if k < t.len() && !(t[k].parent == dir && t[k].name == name) {
        lemma_child(t, dir, name, k + 1);
    }
}

fn find_child(entries: &Vec<Entry>, dir: usize, name: &[u8]) -> (r: usize)
    requires
        entries@.len() >= 1,
    ensures
        r == child_named(items(entries@), dir as int, name@, 1),
        1 <= r <= entries@.len(),
{
    let mut k: usize = 1;
    while k < entries.len() && !(entries[k].parent == dir && bytes_eq(
        entries[k].name.as_slice(),
        name,
    ))
        invariant
            1 <= k <= entries@.len(),
            child_named(items(entries@), dir as int, name@, 1) == child_named(
                items(entries@),
                dir as int,
                name@,
                k as int,
            ),
        decreases entries.len() - k,
    {
        assert(items(entries@)[k as int] == entries@[k as int]@);
        k += 1;
    }
    proof {
        if k < entries.len() {
            assert(items(entries@)[k as int] == entries@[k as int]@);
        }
    }
    k
}

fn plain(name: &[u8]) -> (r: bool)
    ensures
        r == is_plain(name@),
{
    if name.len() == 0 {
        return false;
    }
    if name.len() == 1 && name[0] == 46 {
        assert(name@ =~= seq![46u8]);
        return false;
    }
    if name.len() == 2 && name[0] == 46 && name[1] == 46 {
        assert(name@ =~= seq![46u8, 46u8]);
        return false;
    }
    let mut i: usize = 0;
    while i < name.len()
        invariant
            i <= name@.len(),
            forall|j: int| 0 <= j < i ==> #[trigger] name@[j] != 47,
        decreases name.len() - i,
    {
        if name[i] == 47 {
            return false;
        }
        i += 1;
    }
    proof {
        if name@ == seq![46u8] {
            assert(name@.len() == 1 && name@[0] == 46);
        }
        if name@ == seq![46u8, 46u8] {
            assert(name@.len() == 2 && name@[0] == 46 && name@[1] == 46);
        }
    }
    true
}


/// A tree of directories and files, the root first.
#[derive(Debug, Clone, PartialEq, Eq)]
pub struct Tree {
    pub entries: Vec<Entry>,
}

impl Tree {
    /// The entries of the tree as values of mathematics.
    pub open spec fn view(&self) -> Seq<Item> {
        items(self.entries@)
    }
}

/// The word without a space that is `a`.
fn is_word(w: &[u8], a: u8) -> (r: bool)
    ensures
        r == (w@ == seq![a]),
{
    if w.len() == 1 && w[0] == a {
        assert(w@ =~= seq![a]);
        true
    } else {
        proof {
            if w@ == seq![a] {
                assert(w@.len() == 1 && w@[0] == a);
            }
        }
        false
    }
}

fn is_pair(w: &[u8], a: u8, b: u8) -> (r: bool)
    ensures
        r == (w@ == seq![a, b]),
{
    if w.len() == 2 && w[0] == a && w[1] == b {
        assert(w@ =~= seq![a, b]);
        true
    } else {
        proof {
            if w@ == seq![a, b] {
                assert(w@.len() == 2 && w@[0] == a && w@[1] == b);
            }
        }
        false
    }
}

fn is_dir_word(w: &[u8]) -> (r: bool)
    ensures
        r == (w@ == seq![100u8, 105u8, 114u8]),
{
    if w.len() == 3 && w[0] == 100 && w[1] == 105 && w[2] == 114 {
        assert(w@ =~= seq![100u8, 105u8, 114u8]);
        true
    } else {
        proof {
            if w@ == seq![100u8, 105u8, 114u8] {
                assert(w@.len() == 3 && w@[0] == 100 && w@[1] == 105 && w@[2] == 114);
            }
        }
        false
    }
}

/// The tree that the log builds; an error where it cannot be built. A
/// line that is none of a log is not accepted.
pub fn generate_vfs(input: &str) -> (r: Result<Tree, VfsError>)
    requires
        !(after_lines(
            log_lines(input.spec_bytes()),
            log_lines(input.spec_bytes()).len(),
        ) is Unknown),
    ensures
        match r {
            Ok(tree) => after_lines(
                log_lines(input.spec_bytes()),
                log_lines(input.spec_bytes()).len(),
            ) is Next && tree@ == after_lines(
                log_lines(input.spec_bytes()),
                log_lines(input.spec_bytes()).len(),
            )->Next_0.t && is_tree(tree@),
            Err(_) => after_lines(
                log_lines(input.spec_bytes()),
                log_lines(input.spec_bytes()).len(),
            ) is Failed,
        },
{
    let nl: [u8; 1] = [10];
    let sp: [u8; 1] = [32];
    proof {
        assert(nl@ =~= seq![10u8]);
        assert(sp@ =~= seq![32u8]);
    }
    let commands = split(input.as_bytes(), nl.as_slice());
    let ghost ls = log_lines(input.spec_bytes());
    let mut entries: Vec<Entry> = Vec::new();
    entries.push(Entry { parent: 0, name: Vec::new(), is_dir: true, content: Vec::new() });
    let mut curr_dir: usize = 0;
    proof {
        assert(items(entries@) =~= seq![
            Item { parent: 0, name: Seq::empty(), is_dir: true, content: Seq::empty() },
        ]);
    }
    let mut i: usize = 0;
    while i < commands.len()
        invariant
            i <= commands@.len(),
            ls == views(commands@),
            ls == log_lines(input.spec_bytes()),
            sp@ == seq![32u8],
            !(after_lines(ls, ls.len()) is Unknown),
            after_lines(ls, i as nat) == Done::Next(
                Shell { t: items(entries@), curr: curr_dir as int },
            ),
            shell_ok(Shell { t: items(entries@), curr: curr_dir as int }),
        decreases commands.len() - i,
    {
        let ghost s = Shell { t: items(entries@), curr: curr_dir as int };
        proof {
            assert(commands@[i as int]@ == ls[i as int]);
            lemma_after_line(s, ls[i as int]);
            lemma_lines_stop(ls, (i + 1) as nat, ls.len());
            assert(items(entries@)[curr_dir as int] == entries@[curr_dir as int]@);
        }
        let a = split(commands[i].as_slice(), sp.as_slice());
        let ghost w = split_on(ls[i as int], seq![32u8]);
        assert(w == views(a@));
        proof {
            if a@.len() >= 1 {
                assert(a@[0]@ == w[0]);
            }
            if a@.len() >= 2 {
                assert(a@[1]@ == w[1]);
            }
            if a@.len() >= 3 {
                assert(a@[2]@ == w[2]);
            }
        }
        if a.len() == 2 && is_word(a[0].as_slice(), 36) && is_pair(a[1].as_slice(), 108, 115) {
        } else if a.len() == 3 && is_word(a[0].as_slice(), 36) && is_pair(a[1].as_slice(), 99, 100) {
            if is_word(a[2].as_slice(), 47) {
                curr_dir = 0;
            } else if is_pair(a[2].as_slice(), 46, 46) {
                curr_dir = entries[curr_dir].parent;
            } else {
                let at = find_child(&entries, curr_dir, a[2].as_slice());
                proof {
                    if at < entries@.len() {
                        assert(items(entries@)[at as int] == entries@[at as int]@);
                    }
                }
                if plain(a[2].as_slice()) && at < entries.len() && entries[at].is_dir {
                    curr_dir = at;
                } else {
                    proof {
                        assert(after_line(s, ls[i as int]) is Failed);
                        lemma_lines_fail(ls, (i + 1) as nat, ls.len());
                    }
                    return Err(VfsError);
                }
            }
        } else if a.len() == 2 && is_dir_word(a[0].as_slice()) {
            let at = find_child(&entries, curr_dir, a[1].as_slice());
            if plain(a[1].as_slice()) && at >= entries.len() {
                let ghost before = items(entries@);
                let name = a[1].clone();
                assert(name@ == a@[1]@);
                entries.push(Entry { parent: curr_dir, name, is_dir: true, content: Vec::new() });
                proof {
                    assert(items(entries@) =~= before.push(
                        Item { parent: curr_dir as int, name: w[1], is_dir: true, content: Seq::empty() },
                    ));
                }
            } else {
                proof {
                    lemma_lines_fail(ls, (i + 1) as nat, ls.len());
                }
                return Err(VfsError);
            }
        } else if a.len() == 2 {
            let at = find_child(&entries, curr_dir, a[1].as_slice());
            proof {
                if at < entries@.len() {
                    assert(items(entries@)[at as int] == entries@[at as int]@);
                }
            }
            if !plain(a[1].as_slice()) {
                proof {
                    assert(after_line(s, ls[i as int]) is Failed);
                    lemma_lines_fail(ls, (i + 1) as nat, ls.len());
                }
                return Err(VfsError);
            }
            let ghost before = items(entries@);
            let name = a[1].clone();
            let content = a[0].clone();
            assert(name@ == a@[1]@);
            assert(content@ == a@[0]@);
            let entry = Entry { parent: curr_dir, name, is_dir: false, content };
            if at >= entries.len() {
                entries.push(entry);
                proof {
                    assert(items(entries@) =~= before.push(
                        Item { parent: curr_dir as int, name: w[1], is_dir: false, content: w[0] },
                    ));
                }
            } else if entries[at].is_dir {
                proof {
                    lemma_lines_fail(ls, (i + 1) as nat, ls.len());
                }
                return Err(VfsError);
            } else {
                entries.set(at, entry);
                proof {
                    assert(items(entries@) =~= before.update(
                        at as int,
                        Item { parent: curr_dir as int, name: w[1], is_dir: false, content: w[0] },
                    ));
                }
            }
        } else {
        }
        i += 1;
    }
    Ok(Tree { entries })
}

/// Once the tree cannot be built, it cannot.
pub proof fn lemma_lines_fail(ls: Seq<Seq<u8>>, k: nat, n: nat)
    requires
        after_lines(ls, k) is Failed,
        k <= n,
    ensures
        after_lines(ls, n) is Failed,
    decreases n,
{
    if k < n {
        lemma_lines_fail(ls, k, (n - 1) as nat);
    }
}

/// A log with a line that is none of a log is none.
pub proof fn lemma_lines_stop(ls: Seq<Seq<u8>>, k: nat, n: nat)
    requires
        !(after_lines(ls, n) is Unknown),
        k <= n,
    ensures
        !(after_lines(ls, k) is Unknown),
    decreases n,
{
    if k < n {
        lemma_lines_stop(ls, k, (n - 1) as nat);
    }
}


/// Whether entry `i` lies in directory `d`, however deep, or is it.
pub open spec fn under(t: Seq<Item>, i: int, d: int) -> bool
    decreases i,
{
    i == d || (i >= 1 && 0 <= t[i].parent < i && under(t, t[i].parent, d))
}

/// The size of a file: the number that is written in it, or nothing
/// where no number is. A directory has none of its own.
pub open spec fn file_size(it: Item) -> int {
    if it.is_dir {
        0
    } else {
        match parse_int(it.content, 0, usize::MAX as int) {
            Some(v) => v,
            None => 0,
        }
    }
}

/// The sizes of the files among the first `k` entries that lie in
/// directory `d`, however deep.
pub open spec fn size_upto(t: Seq<Item>, d: int, k: nat) -> int
    decreases k,
{
    if k == 0 {
        0
    } else {
        size_upto(t, d, (k - 1) as nat) + if under(t, k - 1, d) {
            file_size(t[k - 1])
        } else {
            0
        }
    }
}

/// The size of directory `d`: the sizes of all files in it, however
/// deep.
pub open spec fn dir_total(t: Seq<Item>, d: int) -> int {
    size_upto(t, d, t.len())
}

/// Whether the sizes of all directories can be worked out in the
/// machine's numbers.
pub open spec fn sizes_fit(t: Seq<Item>) -> bool {
    forall|d: int, k: nat| 0 <= d < t.len() && k <= t.len() ==> 0 <= #[trigger] size_upto(t, d, k)
        <= usize::MAX
}

fn is_under(tree: &Tree, i: usize, d: usize) -> (r: bool)
    requires
        is_tree(tree@),
        i < tree@.len(),
    ensures
        r == under(tree@, i as int, d as int),
{
    let mut j: usize = i;
    while j != d && j != 0
        invariant
            is_tree(tree@),
            j < tree@.len(),
            under(tree@, i as int, d as int) == under(tree@, j as int, d as int),
        decreases j,
    {
        assert(tree@[j as int] == tree.entries@[j as int]@);
        j = tree.entries[j].parent;
    }
    j == d
}

/// The size of directory `dir`.
pub fn dir_size(tree: &Tree, dir: usize) -> (r: usize)
    requires
        is_tree(tree@),
        dir < tree@.len(),
        sizes_fit(tree@),
    ensures
        r == dir_total(tree@, dir as int),
{
    let mut total: usize = 0;
    let mut k: usize = 0;
    while k < tree.entries.len()
        invariant
            k <= tree@.len(),
            tree@.len() == tree.entries@.len(),
            is_tree(tree@),
            dir < tree@.len(),
            sizes_fit(tree@),
            total == size_upto(tree@, dir as int, k as nat),
        decreases tree.entries.len() - k,
    {
        proof {
            assert(tree@[k as int] == tree.entries@[k as int]@);
            assert(0 <= size_upto(tree@, dir as int, (k + 1) as nat) <= usize::MAX);
        }
        if !tree.entries[k].is_dir && is_under(tree, k, dir) {
            match parse_usize(tree.entries[k].content.as_slice()) {
                Some(v) => {
                    total = total + v;
                },
                None => {},
            }
        }
        k += 1;
    }
    total
}

/// The sum of the sizes of the directories among the first `k` entries
/// that lie in directory `d` and are no greater than 100000.
pub open spec fn small_upto(t: Seq<Item>, d: int, k: nat) -> int
    decreases k,
{
    if k == 0 {
        0
    } else {
        small_upto(t, d, (k - 1) as nat) + if t[k - 1].is_dir && under(t, k - 1, d) && dir_total(
            t,
            k - 1,
        ) <= 100000 {
            dir_total(t, k - 1)
        } else {
            0
        }
    }
}

/// The sum of the sizes of the directories in `dir`, itself among them,
/// that are no greater than 100000.
pub fn sum_dirs(tree: &Tree, dir: usize) -> (r: Result<usize, VfsError>)
    requires
        is_tree(tree@),
        dir < tree@.len(),
        sizes_fit(tree@),
        forall|k: nat| k <= tree@.len() ==> #[trigger] small_upto(tree@, dir as int, k) <= usize::MAX,
    ensures
        r is Ok,
        r->Ok_0 == small_upto(tree@, dir as int, tree@.len()),
{
    let mut total: usize = 0;
    let mut k: usize = 0;
    while k < tree.entries.len()
        invariant
            k <= tree@.len(),
            tree@.len() == tree.entries@.len(),
            is_tree(tree@),
            dir < tree@.len(),
            sizes_fit(tree@),
            forall|j: nat| j <= tree@.len() ==> #[trigger] small_upto(tree@, dir as int, j) <= usize::MAX,
            total == small_upto(tree@, dir as int, k as nat),
        decreases tree.entries.len() - k,
    {
        proof {
            assert(tree@[k as int] == tree.entries@[k as int]@);
            assert(small_upto(tree@, dir as int, (k + 1) as nat) <= usize::MAX);
            assert(0 <= size_upto(tree@, k as int, tree@.len()));
        }
        if tree.entries[k].is_dir && is_under(tree, k, dir) {
            let size = dir_size(tree, k);
            if size <= 100000 {
                total = total + size;
            }
        }
        k += 1;
    }
    Ok(total)
}

/// The sizes of the directories among the first `k` entries that lie in
/// directory `d`.
pub open spec fn sizes_upto(t: Seq<Item>, d: int, k: nat) -> Seq<usize>
    decreases k,
{
    if k == 0 {
        Seq::empty()
    } else if t[k - 1].is_dir && under(t, k - 1, d) {
        sizes_upto(t, d, (k - 1) as nat).push(dir_total(t, k - 1) as usize)
    } else {
        sizes_upto(t, d, (k - 1) as nat)
    }
}

/// The sizes of the directories in `dir`, itself among them, in the
/// order in which they were made.
pub fn dir_sizes(tree: &Tree, dir: usize) -> (r: Vec<usize>)
    requires
        is_tree(tree@),
        dir < tree@.len(),
        sizes_fit(tree@),
    ensures
        r@ == sizes_upto(tree@, dir as int, tree@.len()),
{
    let mut out: Vec<usize> = Vec::new();
    let mut k: usize = 0;
    while k < tree.entries.len()
        invariant
            k <= tree@.len(),
            tree@.len() == tree.entries@.len(),
            is_tree(tree@),
            dir < tree@.len(),
            sizes_fit(tree@),
            out@ == sizes_upto(tree@, dir as int, k as nat),
        decreases tree.entries.len() - k,
    {
        proof {
            assert(tree@[k as int] == tree.entries@[k as int]@);
        }
        if tree.entries[k].is_dir && is_under(tree, k, dir) {
            out.push(dir_size(tree, k));
        }
        k += 1;
    }
    out
}

/// The tree that the log builds.
pub open spec fn tree_of(s: Seq<u8>) -> Seq<Item> {
    after_lines(log_lines(s), log_lines(s).len())->Next_0.t
}

/// Whether the log builds a tree whose sizes can be worked out.
pub open spec fn is_log(s: Seq<u8>) -> bool {
    &&& after_lines(log_lines(s), log_lines(s).len()) is Next
    &&& sizes_fit(tree_of(s))
}

/// The sum of the sizes of the directories that are no greater than
/// 100000.
pub fn day7_1(input: &str) -> (r: usize)
    requires
        is_log(input.spec_bytes()),
        forall|k: nat|
            k <= tree_of(input.spec_bytes()).len() ==> #[trigger] small_upto(
                tree_of(input.spec_bytes()),
                0,
                k,
            ) <= usize::MAX,
    ensures
        r == small_upto(tree_of(input.spec_bytes()), 0, tree_of(input.spec_bytes()).len()),
{
    let root = match generate_vfs(input) {
        Ok(t) => t,
        Err(_) => Tree { entries: Vec::new() },
    };
    match sum_dirs(&root, 0) {
        Ok(v) => v,
        Err(_) => 0,
    }
}

/// Whether `v` is the least of the first `k` sizes that are greater
/// than `needed`.
pub open spec fn is_least_above(sizes: Seq<usize>, needed: int, v: int) -> bool {
    &&& v > needed
    &&& exists|i: int| 0 <= i < sizes.len() && #[trigger] sizes[i] == v
    &&& forall|i: int| 0 <= i < sizes.len() && (#[trigger] sizes[i]) > needed ==> v <= sizes[i]
}

/// The size of the smallest directory whose removal leaves 30000000 of
/// 70000000 free. The tree must use 40000000 or more, and a directory
/// must be great enough.
pub fn day7_2(input: &str) -> (r: usize)
    requires
        is_log(input.spec_bytes()),
        dir_total(tree_of(input.spec_bytes()), 0) >= 40000000,
        dir_total(tree_of(input.spec_bytes()), 0) + 30000000 <= usize::MAX,
        exists|i: int|
            0 <= i < sizes_upto(
                tree_of(input.spec_bytes()),
                0,
                tree_of(input.spec_bytes()).len(),
            ).len() && (#[trigger] sizes_upto(
                tree_of(input.spec_bytes()),
                0,
                tree_of(input.spec_bytes()).len(),
            )[i]) > dir_total(tree_of(input.spec_bytes()), 0) - 40000000,
    ensures
        is_least_above(
            sizes_upto(tree_of(input.spec_bytes()), 0, tree_of(input.spec_bytes()).len()),
            dir_total(tree_of(input.spec_bytes()), 0) - 40000000,
            r as int,
        ),
{
    let root = match generate_vfs(input) {
        Ok(t) => t,
        Err(_) => Tree { entries: Vec::new() },
    };
    let used = dir_size(&root, 0);
    let needed_space: usize = used + 30000000 - 70000000;
    let sizes = dir_sizes(&root, 0);
    let mut best: usize = 0;
    let mut found = false;
    let ghost mut at: int = 0;
    let mut k: usize = 0;
    while k < sizes.len()
        invariant
            k <= sizes@.len(),
            found ==> 0 <= at < k && sizes@[at] == best && best > needed_space,
            found ==> forall|i: int| 0 <= i < k && (#[trigger] sizes@[i]) > needed_space ==> best <= sizes@[i],
            !found ==> forall|i: int| 0 <= i < k ==> (#[trigger] sizes@[i]) <= needed_space,
        decreases sizes.len() - k,
    {
        let n = sizes[k];
        if n > needed_space && (!found || n < best) {
            best = n;
            found = true;
            proof {
                at = k as int;
            }
        }
        k += 1;
    }
    best
}

} // verus!
