//! A directory tree rebuilt from a shell transcript: `cd` and `ls`
//! commands, directory sizes, and searches over them.

use vstd::prelude::*;

verus! {

/// A directory entry: a subdirectory or a plain file.
pub enum Entry {
    Directory(Directory),
    File(File),
}

/// A directory with its name and contents.
pub struct Directory {
    pub name: Vec<u8>,
    pub children: Vec<Entry>,
}

/// A file; only its size matters.
pub struct File {
    pub size: u64,
}

/// The total size of an entry.
pub open spec fn entry_size(e: Entry) -> int
    decreases e,
{
    match e {
        Entry::Directory(d) => dir_size(d),
        Entry::File(f) => f.size as int,
    }
}

/// The total size of a directory: the sum over its children.
pub open spec fn dir_size(d: Directory) -> int
    decreases d,
{
    entries_size(d.children@)
}

/// The total size of a list of entries.
pub open spec fn entries_size(s: Seq<Entry>) -> int
    decreases s,
{
    if s.len() == 0 {
        0
    } else {
        entries_size(s.drop_last()) + entry_size(s.last())
    }
}

/// Entry sizes are non-negative.
pub proof fn lemma_entry_size_nonneg(e: Entry)
    ensures
        entry_size(e) >= 0,
    decreases e,
{
    match e {
        Entry::Directory(d) => {
            lemma_entries_size_nonneg(d.children@);
        },
        Entry::File(_) => {},
    }
}

/// Sums of entry sizes are non-negative and bound each member.
pub proof fn lemma_entries_size_nonneg(s: Seq<Entry>)
    ensures
        entries_size(s) >= 0,
    decreases s,
{
    if s.len() > 0 {
        lemma_entries_size_nonneg(s.drop_last());
        lemma_entry_size_nonneg(s.last());
    }
}

/// A prefix sum of entry sizes never exceeds the whole sum.
proof fn lemma_entries_size_take(s: Seq<Entry>, i: int)
    requires
        0 <= i <= s.len(),
    ensures
        entries_size(s.take(i)) <= entries_size(s),
        i < s.len() ==> entries_size(s.take(i + 1)) == entries_size(s.take(i)) + entry_size(s[i])
            && entries_size(s.take(i + 1)) <= entries_size(s),
    decreases s.len() - i,
{
    if i < s.len() {
        assert(s.take(i + 1).drop_last() =~= s.take(i));
        assert(s.take(i + 1).last() == s[i]);
        lemma_entries_size_take(s, i + 1);
        lemma_entry_size_nonneg(s[i]);
        if i + 1 == s.len() {
            assert(s.take(i + 1) =~= s);
        }
    } else {
        assert(s.take(i) =~= s);
    }
}

impl Directory {
    /// The total size of everything under this directory.
    pub fn size(&self) -> (n: u64)
        requires
            dir_size(*self) <= u64::MAX,
        ensures
            n == dir_size(*self),
        decreases *self,
    {
        let mut n: u64 = 0;
        let mut i: usize = 0;
        proof {
            assert(self.children@.take(0) =~= Seq::<Entry>::empty());
        }
        while i < self.children.len()
            invariant
                0 <= i <= self.children@.len(),
                dir_size(*self) <= u64::MAX,
                n == entries_size(self.children@.take(i as int)),
            decreases self.children@.len() - i,
        {
            proof {
                lemma_entries_size_take(self.children@, i as int);
                lemma_entry_size_nonneg(self.children@[i as int]);
                lemma_entries_size_nonneg(self.children@.take(i as int));
                assert(entry_size(self.children@[i as int]) <= dir_size(*self));
            }
            let child_size = match &self.children[i] {
                Entry::Directory(d) => {
                    proof {
                        assert(entry_size(self.children@[i as int]) == dir_size(*d));
                    }
                    d.size()
                },
                Entry::File(f) => f.size,
            };
            n = n + child_size;
            i = i + 1;
        }
        proof {
            assert(self.children@.take(self.children@.len() as int) =~= self.children@);
        }
        n
    }
}

impl Entry {
    /// The total size of this entry.
    pub fn size(&self) -> (n: u64)
        requires
            entry_size(*self) <= u64::MAX,
        ensures
            n == entry_size(*self),
    {
        match self {
            Entry::Directory(d) => d.size(),
            Entry::File(f) => f.size,
        }
    }
}

/// A directory's reported size if it is small enough to count, and zero
/// otherwise.
pub fn keep_only_small(size: u64) -> (n: u64)
    ensures
        n == if size <= 100_000 {
            size as int
        } else {
            0
        },
{
    if size <= 100_000 {
        size
    } else {
        0
    }
}

/// The sum over a directory tree of every directory size of at most
/// 100000, the root included.
pub open spec fn small_sum(d: Directory) -> int
    decreases d,
{
    entries_small_sum(d.children@) + if dir_size(d) <= 100_000 {
        dir_size(d)
    } else {
        0
    }
}

/// The same sum over a list of entries; files contribute nothing.
pub open spec fn entries_small_sum(s: Seq<Entry>) -> int
    decreases s,
{
    if s.len() == 0 {
        0
    } else {
        entries_small_sum(s.drop_last()) + match s.last() {
            Entry::Directory(d) => small_sum(d),
            Entry::File(_) => 0,
        }
    }
}

proof fn lemma_small_sum_bounds(d: Directory)
    ensures
        0 <= small_sum(d),
    decreases d,
{
    lemma_entries_small_sum_bounds(d.children@);
    lemma_entries_size_nonneg(d.children@);
}

proof fn lemma_entries_small_sum_bounds(s: Seq<Entry>)
    ensures
        0 <= entries_small_sum(s),
    decreases s,
{
    if s.len() > 0 {
        lemma_entries_small_sum_bounds(s.drop_last());
        match s.last() {
            Entry::Directory(d) => {
                lemma_small_sum_bounds(d);
            },
            Entry::File(_) => {},
        }
    }
}

/// Sums the sizes of all directories of size at most 100000 in the tree
/// rooted at `current`, the root included.
pub fn sum_small_dirs(current: &Directory) -> (n: u64)
    requires
        dir_size(*current) <= u64::MAX,
        small_sum(*current) <= u64::MAX,
        entries_small_sum(current.children@) <= u64::MAX,
    ensures
        n == small_sum(*current),
    decreases *current,
{
    let mut n: u64 = 0;
    let mut i: usize = 0;
    proof {
        assert(current.children@.take(0) =~= Seq::<Entry>::empty());
    }
    while i < current.children.len()
        invariant
            0 <= i <= current.children@.len(),
            dir_size(*current) <= u64::MAX,
            entries_small_sum(current.children@) <= u64::MAX,
            n == entries_small_sum(current.children@.take(i as int)),
        decreases current.children@.len() - i,
    {
        proof {
            lemma_entries_small_sum_take(current.children@, i as int);
            lemma_entries_small_sum_bounds(current.children@.take(i as int));
            match current.children@[i as int] {
                Entry::Directory(d) => {
                    lemma_small_sum_bounds(d);
                    lemma_entries_size_take(current.children@, i as int);
                    lemma_entries_size_nonneg(current.children@.take(i as int));
                    lemma_entry_size_nonneg(current.children@[i as int]);
                },
                Entry::File(_) => {},
            }
        }
        match &current.children[i] {
            Entry::Directory(d) => {
                proof {
                    assert(entry_size(current.children@[i as int]) == dir_size(*d));
                    assert(dir_size(*d) <= dir_size(*current));
                    assert(small_sum(*d) <= entries_small_sum(current.children@));
                    lemma_entries_small_sum_bounds(d.children@);
                    lemma_entries_size_nonneg(d.children@);
                    assert(entries_small_sum(d.children@) <= small_sum(*d));
                }
                let sub = sum_small_dirs(d);
                n = n + sub;
            },
            Entry::File(_) => {},
        }
        i = i + 1;
    }
    proof {
        assert(current.children@.take(current.children@.len() as int) =~= current.children@);
        lemma_entries_size_nonneg(current.children@);
    }
    let own = current.size();
    n + keep_only_small(own)
}

/// The sizes of every directory strictly larger than `target` in the tree
/// rooted at `d`, the root first and the children in order.  A directory
/// at most `target` in size hides its whole subtree, because no directory
/// under it can be larger than it.
pub open spec fn big_dirs(d: Directory, target: int) -> Seq<int>
    decreases d,
{
    if dir_size(d) > target {
        seq![dir_size(d)] + entries_big(d.children@, target)
    } else {
        Seq::empty()
    }
}

/// The same collection over a list of entries; files contribute nothing.
pub open spec fn entries_big(s: Seq<Entry>, target: int) -> Seq<int>
    decreases s,
{
    if s.len() == 0 {
        Seq::empty()
    } else {
        entries_big(s.drop_last(), target) + match s.last() {
            Entry::Directory(d) => big_dirs(d, target),
            Entry::File(_) => Seq::empty(),
        }
    }
}

proof fn lemma_entries_big_take(s: Seq<Entry>, target: int, i: int)
    requires
        0 <= i <= s.len(),
    ensures
        i < s.len() ==> entries_big(s.take(i + 1), target) =~= entries_big(s.take(i), target) + (
        match s[i] {
            Entry::Directory(d) => big_dirs(d, target),
            Entry::File(_) => Seq::empty(),
        }),
    decreases s.len() - i,
{
    if i < s.len() {
        assert(s.take(i + 1).drop_last() =~= s.take(i));
        assert(s.take(i + 1).last() == s[i]);
    }
}

/// Collects, onto `possibilities`, the size of every directory in the tree
/// larger than `target`: the root first, then the children in order,
/// skipping whole subtrees that are already small enough.
pub fn find_possible_directories(current: &Directory, target: u64, possibilities: &mut Vec<u64>)
    requires
        dir_size(*current) <= u64::MAX,
    ensures
        final(possibilities)@.len() == old(possibilities)@.len() + big_dirs(
            *current,
            target as int,
        ).len(),
        forall|k: int|
            0 <= k < old(possibilities)@.len() ==> (#[trigger] final(possibilities)@[k]) == old(possibilities)@[k],
        forall|k: int|
            0 <= k < big_dirs(*current, target as int).len()
                ==> (#[trigger] final(possibilities)@[old(possibilities)@.len() + k]) == big_dirs(
                *current,
                target as int,
            )[k],
    decreases *current,
{
    let size = current.size();
    if size > target {
        possibilities.push(size);
        let ghost base = possibilities@;
        let mut i: usize = 0;
        proof {
            assert(current.children@.take(0) =~= Seq::<Entry>::empty());
        }
        while i < current.children.len()
            invariant
                0 <= i <= current.children@.len(),
                dir_size(*current) <= u64::MAX,
                base.len() == old(possibilities)@.len() + 1,
                possibilities@.len() == base.len() + entries_big(
                    current.children@.take(i as int),
                    target as int,
                ).len(),
                forall|k: int|
                    0 <= k < base.len() ==> (#[trigger] possibilities@[k]) == base[k],
                forall|k2: int|
                    0 <= k2 < entries_big(current.children@.take(i as int), target as int).len()
                        ==> (#[trigger] possibilities@[base.len() + k2]) == entries_big(
                        current.children@.take(i as int),
                        target as int,
                    )[k2],
            decreases current.children@.len() - i,
        {
            proof {
                lemma_entries_big_take(current.children@, target as int, i as int);
                lemma_entries_size_take(current.children@, i as int);
                lemma_entries_size_nonneg(current.children@.take(i as int));
                lemma_entry_size_nonneg(current.children@[i as int]);
            }
            let ghost before = possibilities@;
            let ghost done = entries_big(current.children@.take(i as int), target as int);
            match &current.children[i] {
                Entry::Directory(d) => {
                    proof {
                        assert(entry_size(current.children@[i as int]) == dir_size(*d));
                    }
                    find_possible_directories(d, target, possibilities);
                    proof {
                        let grown = entries_big(current.children@.take(i + 1), target as int);
                        assert(grown =~= done + big_dirs(*d, target as int));
                        assert forall|k2: int| 0 <= k2 < grown.len() implies (
                        #[trigger] possibilities@[base.len() + k2]) == grown[k2] by {
                            if k2 < done.len() {
                                assert(possibilities@[base.len() + k2] == before[base.len() + k2]);
                            } else {
                                assert(possibilities@[before.len() + (k2 - done.len())]
                                    == big_dirs(*d, target as int)[k2 - done.len()]);
                                assert(base.len() + k2 == before.len() + (k2 - done.len()));
                            }
                        }
                    }
                },
                Entry::File(_) => {},
            }
            i = i + 1;
        }
        proof {
            assert(current.children@.take(current.children@.len() as int) =~= current.children@);
            assert(big_dirs(*current, target as int) =~= seq![dir_size(*current)] + entries_big(
                current.children@,
                target as int,
            ));
            assert forall|k: int|
                0 <= k < big_dirs(*current, target as int).len() implies (
            #[trigger] possibilities@[old(possibilities)@.len() + k]) == big_dirs(
                *current,
                target as int,
            )[k] by {
                if k == 0 {
                    assert(possibilities@[old(possibilities)@.len() as int] == base[base.len() - 1]);
                } else {
                    assert(possibilities@[base.len() + (k - 1)] == entries_big(
                        current.children@,
                        target as int,
                    )[k - 1]);
                    assert(old(possibilities)@.len() + k == base.len() + (k - 1));
                }
            }
        }
    }
}

/// `a` and `b` joined by a single space.
pub open spec fn spaced(a: Seq<u8>, b: Seq<u8>) -> Seq<u8> {
    a + seq![32u8] + b
}

/// Whether two byte vectors hold the same bytes.
fn bytes_eq(a: &Vec<u8>, b: &Vec<u8>) -> (r: bool)
    ensures
        r == (a@ =~= b@),
{
    if a.len() != b.len() {
        return false;
    }
    let mut i: usize = 0;
    while i < a.len()
        invariant
            0 <= i <= a@.len(),
            a@.len() == b@.len(),
            forall|k: int| 0 <= k < i ==> a@[k] == b@[k],
        decreases a@.len() - i,
    {
        if a[i] != b[i] {
            return false;
        }
        i = i + 1;
    }
    true
}

/// `entry` spells an `ls` output line: a token and a space-free name, the
/// token being `dir` or a decimal file size that fits.
pub open spec fn spells_ls_entry(entry: Seq<u8>) -> bool {
    exists|kind: Seq<u8>, name: Seq<u8>|
        {
            &&& #[trigger] spaced(kind, name) == entry
            &&& forall|i: int| 0 <= i < name.len() ==> #[trigger] name[i] != 32
            &&& (kind =~= seq![100u8, 105u8, 114u8] || (crate::text::all_digits(kind)
                && kind.len() >= 1 && crate::text::digits_val(kind) <= u64::MAX))
        }
}

/// A spelled `ls` line splits on the space into exactly its token and
/// name.
proof fn lemma_ls_entry_split(entry: Seq<u8>, parts: Seq<Seq<u8>>)
    requires
        spells_ls_entry(entry),
        parts.len() >= 1,
        crate::text::joined(parts, 32) == entry,
        crate::text::sep_free(parts, 32),
    ensures
        parts.len() == 2,
        parts[0] =~= seq![100u8, 105u8, 114u8] || (crate::text::all_digits(parts[0])
            && parts[0].len() >= 1 && crate::text::digits_val(parts[0]) <= u64::MAX),
{
    let (kind, name) = choose|kind: Seq<u8>, name: Seq<u8>|
        {
            &&& #[trigger] spaced(kind, name) == entry
            &&& forall|i: int| 0 <= i < name.len() ==> #[trigger] name[i] != 32
            &&& (kind =~= seq![100u8, 105u8, 114u8] || (crate::text::all_digits(kind)
                && kind.len() >= 1 && crate::text::digits_val(kind) <= u64::MAX))
        };
    let ps2 = seq![kind, name];
    assert(crate::text::joined(ps2, 32) == entry) by {
        assert(ps2.drop_first() =~= seq![name]);
        assert(crate::text::joined(ps2.drop_first(), 32) == name);
        assert(crate::text::joined(ps2, 32) =~= spaced(kind, name));
    }
    assert(crate::text::sep_free(ps2, 32)) by {
        assert forall|k: int, i: int|
            0 <= k < ps2.len() && 0 <= i < ps2[k].len() implies #[trigger] ps2[k][i] != 32 by {
            if k == 0 {
                if kind =~= seq![100u8, 105u8, 114u8] {
                    assert(kind[i] == 100 || kind[i] == 105 || kind[i] == 114);
                } else {
                    assert(crate::text::is_digit(kind[i]));
                }
            } else {
                assert(name[i] != 32);
            }
        }
    }
    crate::text::lemma_joined_unique(parts, ps2, 32);
}

/// Reads one line of `ls` output: `dir <name>` becomes an empty
/// subdirectory of that name, `<size> <name>` a file of that size.
/// Succeeds exactly when the line spells such an entry.
pub fn process_ls_line(entry: &Vec<u8>) -> (r: Option<Entry>)
    ensures
        match r {
            Some(e) => exists|kind: Seq<u8>, name: Seq<u8>|
                {
                    &&& #[trigger] spaced(kind, name) == entry@
                    &&& match e {
                        Entry::Directory(d) => kind =~= seq![100u8, 105u8, 114u8] && d.name@
                            == name && d.children@.len() == 0,
                        Entry::File(f) => crate::text::all_digits(kind) && kind.len() >= 1
                            && f.size == crate::text::digits_val(kind),
                    }
                },
            None => !spells_ls_entry(entry@),
        },
{
    let parts = crate::text::split(entry, 32);
    let ghost ps = parts@.map_values(|p: Vec<u8>| p@);
    if parts.len() != 2 {
        proof {
            if spells_ls_entry(entry@) {
                lemma_ls_entry_split(entry@, ps);
            }
        }
        return None;
    }
    proof {
        let ps = parts@.map_values(|p: Vec<u8>| p@);
        assert(ps =~= seq![parts@[0]@, parts@[1]@]);
        assert(ps.drop_first() =~= seq![parts@[1]@]);
        assert(crate::text::joined(ps.drop_first(), 32) == parts@[1]@);
        assert(spaced(parts@[0]@, parts@[1]@) =~= crate::text::joined(ps, 32));
    }
    let kind = &parts[0];
    if kind.len() == 3 && kind[0] == 100 && kind[1] == 105 && kind[2] == 114 {
        proof {
            assert(kind@ =~= seq![100u8, 105u8, 114u8]);
        }
        let mut name: Vec<u8> = Vec::new();
        let mut i: usize = 0;
        while i < parts[1].len()
            invariant
                0 <= i <= parts@[1]@.len(),
                parts@.len() == 2,
                name@ =~= parts@[1]@.take(i as int),
            decreases parts@[1]@.len() - i,
        {
            name.push(parts[1][i]);
            i = i + 1;
        }
        proof {
            assert(name@ =~= parts@[1]@);
        }
        Some(Entry::Directory(Directory { name, children: Vec::new() }))
    } else {
        let size = match crate::text::parse_u64(kind) {
            Some(n) => n,
            None => {
                proof {
                    if spells_ls_entry(entry@) {
                        lemma_ls_entry_split(entry@, ps);
                        assert(!(kind@ =~= seq![100u8, 105u8, 114u8]));
                    }
                }
                return None;
            },
        };
        Some(Entry::File(File { size }))
    }
}

/// Replays a shell transcript from line `pos` into `current`: `$ ls`
/// starts a listing whose entries fill the current directory, `$ cd <dir>`
/// descends into a child, and `$ cd ..` returns to the caller.  Always
/// advances through the transcript; a malformed line ends the walk early.
pub fn process_commands(lines: &Vec<Vec<u8>>, pos: &mut usize, current: &mut Directory)
    requires
        *old(pos) <= lines@.len(),
    ensures
        *old(pos) <= *final(pos) <= lines@.len(),
        final(current).name@ == old(current).name@,
    decreases lines@.len() - *old(pos),
{
    let mut reading_ls = false;
    loop
        invariant
            *old(pos) <= *pos <= lines@.len(),
            current.name@ == old(current).name@,
        ensures
            *old(pos) <= *pos <= lines@.len(),
            current.name@ == old(current).name@,
        decreases lines@.len() - *pos,
    {
        if *pos >= lines.len() {
            return ;
        }
        let line = &lines[*pos];
        if line.len() >= 1 && line[0] == 36 {
            let words = crate::text::split(line, 32);
            if words.len() == 2 && words[1].len() == 2 && words[1][0] == 108 && words[1][1] == 115 {
                // "$ ls"
                reading_ls = true;
                *pos = *pos + 1;
            } else if words.len() == 3 && words[1].len() == 2 && words[1][0] == 99 && words[1][1]
                == 100 {
                // "$ cd <dir>"
                *pos = *pos + 1;
                let target = &words[2];
                if target.len() == 2 && target[0] == 46 && target[1] == 46 {
                    return ;
                }
                let mut idx: usize = 0;
                let mut found: Option<usize> = None;
                while idx < current.children.len() && found.is_none()
                    invariant
                        0 <= idx <= current.children@.len(),
                        found matches Some(j) ==> 0 <= j < current.children@.len(),
                    decreases current.children@.len() - idx + (if found is Some {
                        0int
                    } else {
                        1int
                    }),
                {
                    let matches_name = match &current.children[idx] {
                        Entry::Directory(d) => bytes_eq(&d.name, target),
                        Entry::File(_) => false,
                    };
                    if matches_name {
                        found = Some(idx);
                    } else {
                        idx = idx + 1;
                    }
                }
                match found {
                    Some(j) => {
                        let child = self_remove(current, j);
                        match child {
                            Entry::Directory(mut d) => {
                                process_commands(lines, pos, &mut d);
                                current.children.insert(j, Entry::Directory(d));
                            },
                            other => {
                                current.children.insert(j, other);
                            },
                        }
                    },
                    None => {},
                }
            } else {
                // An unrecognized command ends the walk.
                return ;
            }
        } else {
            if !reading_ls {
                return ;
            }
            match process_ls_line(line) {
                Some(e) => {
                    current.children.push(e);
                },
                None => {
                    return ;
                },
            }
            *pos = *pos + 1;
        }
    }
}

/// Takes the child at `j` out of the directory.
fn self_remove(current: &mut Directory, j: usize) -> (e: Entry)
    requires
        j < old(current).children@.len(),
    ensures
        final(current).name@ == old(current).name@,
        final(current).children@ == old(current).children@.remove(j as int),
        e == old(current).children@[j as int],
{
    current.children.remove(j)
}

/// A prefix of the small-directory sum never exceeds the whole, and grows
/// by the next entry's contribution.
proof fn lemma_entries_small_sum_take(s: Seq<Entry>, i: int)
    requires
        0 <= i <= s.len(),
    ensures
        entries_small_sum(s.take(i)) <= entries_small_sum(s),
        i < s.len() ==> entries_small_sum(s.take(i + 1)) == entries_small_sum(s.take(i)) + (
        match s[i] {
            Entry::Directory(d) => small_sum(d),
            Entry::File(_) => 0,
        }) && entries_small_sum(s.take(i + 1)) <= entries_small_sum(s),
    decreases s.len() - i,
{
    if i < s.len() {
        assert(s.take(i + 1).drop_last() =~= s.take(i));
        assert(s.take(i + 1).last() == s[i]);
        lemma_entries_small_sum_take(s, i + 1);
        match s[i] {
            Entry::Directory(d) => {
                lemma_small_sum_bounds(d);
            },
            Entry::File(_) => {},
        }
        if i + 1 == s.len() {
            assert(s.take(i + 1) =~= s);
        }
    } else {
        assert(s.take(i) =~= s);
    }
}

} // verus!
