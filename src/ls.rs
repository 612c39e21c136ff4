//! `ls`: entries ordered by name, hidden ones left out unless asked for, and
//! each written as its name or as a long line with permissions, size and time.
use vstd::prelude::*;
use vstd::multiset::Multiset;
use vstd::string::*;
use crate::text::{
    chars_of, decimal, lemma_precedes_irreflexive, lemma_precedes_total,
    lemma_precedes_transitive, pad_decimal, pad_left, precedes, push_char, str_precedes, views,
};

verus! {

/// The flags of one `ls` invocation.
#[derive(Clone, Copy, PartialEq, Eq, Structural, Debug)]
pub struct LsOptions {
    pub show_hidden: bool,
    pub long_format: bool,
}

impl Default for LsOptions {
    fn default() -> (r: Self)
        ensures
            !r.show_hidden && !r.long_format,
    {
        LsOptions { show_hidden: false, long_format: false }
    }
}

/// The options after one flag letter: `a` shows hidden entries, `l` asks for
/// the long format, and any other letter changes nothing.
pub open spec fn with_ls_flag(o: LsOptions, flag: char) -> LsOptions {
    if flag == 'a' {
        LsOptions { show_hidden: true, ..o }
    } else if flag == 'l' {
        LsOptions { long_format: true, ..o }
    } else {
        o
    }
}

impl LsOptions {
    /// Applies one flag letter.
    pub fn apply_flag(&mut self, flag: char)
        ensures
            *final(self) == with_ls_flag(*old(self), flag),
    {
        if flag == 'a' {
            self.show_hidden = true;
        } else if flag == 'l' {
            self.long_format = true;
        }
    }
}

/// A directory entry as it was when the directory was read: its name, whether
/// it is a directory, its size in bytes, its modification time in seconds
/// since the Unix epoch, and its permission mode.
pub struct FileEntry {
    pub name: String,
    pub is_dir: bool,
    pub size: u64,
    pub modified: u64,
    pub mode: u32,
}

/// The contents of a [`FileEntry`].
pub struct EntryView {
    pub name: Seq<char>,
    pub is_dir: bool,
    pub size: u64,
    pub modified: u64,
    pub mode: u32,
}

impl View for FileEntry {
    type V = EntryView;

    open spec fn view(&self) -> EntryView {
        EntryView {
            name: self.name@,
            is_dir: self.is_dir,
            size: self.size,
            modified: self.modified,
            mode: self.mode,
        }
    }
}

/// A name that starts with `.` is hidden.
pub open spec fn hidden(name: Seq<char>) -> bool {
    name.len() > 0 && name[0] == '.'
}

impl FileEntry {
    /// An entry from its parts.
    pub fn new(name: String, is_dir: bool, size: u64, modified: u64, mode: u32) -> (r: Self)
        ensures
            r@ == (EntryView { name: name@, is_dir, size, modified, mode }),
    {
        FileEntry { name, is_dir, size, modified, mode }
    }

    /// Whether the entry is a directory.
    pub fn is_dir(&self) -> (r: bool)
        ensures
            r == self.is_dir,
    {
        self.is_dir
    }

    /// Whether the entry's name starts with `.`.
    pub fn is_hidden(&self) -> (r: bool)
        ensures
            r == hidden(self.name@),
    {
        let cs = chars_of(self.name.as_str());
        cs.len() > 0 && cs[0] == '.'
    }

    /// The size in bytes.
    pub fn size(&self) -> (r: u64)
        ensures
            r == self.size,
    {
        self.size
    }

    /// The modification time in seconds since the Unix epoch.
    pub fn modified_timestamp(&self) -> (r: u64)
        ensures
            r == self.modified,
    {
        self.modified
    }

    /// The permission mode.
    pub fn permissions(&self) -> (r: u32)
        ensures
            r == self.mode,
    {
        self.mode
    }
}

/// Whether an entry is listed under `o`.
pub open spec fn included(e: EntryView, o: LsOptions) -> bool {
    o.show_hidden || !hidden(e.name)
}

/// `c` where the mode has the bit set, `-` where it does not.
pub open spec fn mode_char(mode: u32, bit: u32, c: char) -> char {
    if mode & bit != 0 {
        c
    } else {
        '-'
    }
}

/// `d` for a directory, `-` otherwise, then read, write and execute for the
/// owner, the group and others, from the low nine bits of the mode.
pub open spec fn permission_text(mode: u32, is_dir: bool) -> Seq<char> {
    seq![
        if is_dir {
            'd'
        } else {
            '-'
        },
        mode_char(mode, 0o400, 'r'),
        mode_char(mode, 0o200, 'w'),
        mode_char(mode, 0o100, 'x'),
        mode_char(mode, 0o040, 'r'),
        mode_char(mode, 0o020, 'w'),
        mode_char(mode, 0o010, 'x'),
        mode_char(mode, 0o004, 'r'),
        mode_char(mode, 0o002, 'w'),
        mode_char(mode, 0o001, 'x'),
    ]
}

/// The short form: the name, with `/` after it for a directory.
pub open spec fn simple_line(e: EntryView) -> Seq<char> {
    if e.is_dir {
        e.name.push('/')
    } else {
        e.name
    }
}

/// The long form: permissions, the size right-justified in eight columns, the
/// modification time right-justified in twelve, and the name, separated by
/// single spaces.
pub open spec fn long_line(e: EntryView) -> Seq<char> {
    permission_text(e.mode, e.is_dir) + seq![' '] + pad_left(decimal(e.size as nat), 8) + seq![' ']
        + pad_left(decimal(e.modified as nat), 12) + seq![' '] + e.name
}

/// The line for one entry: long or short, as `o` asks.
pub open spec fn entry_line(e: EntryView, o: LsOptions) -> Seq<char> {
    if o.long_format {
        long_line(e)
    } else {
        simple_line(e)
    }
}

/// The lines for the entries in the order given, one for each listed entry.
pub open spec fn listing(es: Seq<EntryView>, o: LsOptions) -> Seq<Seq<char>>
    decreases es.len(),
{
    if es.len() == 0 {
        Seq::empty()
    } else if included(es.last(), o) {
        listing(es.drop_last(), o).push(entry_line(es.last(), o))
    } else {
        listing(es.drop_last(), o)
    }
}

/// The contents of entries.
pub open spec fn entry_views(es: Seq<FileEntry>) -> Seq<EntryView> {
    es.map_values(|e: FileEntry| e@)
}

/// No entry's name precedes the name of an entry before it.
pub open spec fn name_sorted(es: Seq<FileEntry>) -> bool {
    forall|i: int, j: int|
        0 <= i < j < es.len() ==> !precedes(#[trigger] es[j].name@, #[trigger] es[i].name@)
}

/// The permission text of a mode.
pub fn permission_string(mode: u32, is_dir: bool) -> (r: String)
    ensures
        r@ == permission_text(mode, is_dir),
{
    let mut r = String::new();
    push_char(&mut r, if is_dir { 'd' } else { '-' });
    push_char(&mut r, if mode & 0o400 != 0 { 'r' } else { '-' });
    push_char(&mut r, if mode & 0o200 != 0 { 'w' } else { '-' });
    push_char(&mut r, if mode & 0o100 != 0 { 'x' } else { '-' });
    push_char(&mut r, if mode & 0o040 != 0 { 'r' } else { '-' });
    push_char(&mut r, if mode & 0o020 != 0 { 'w' } else { '-' });
    push_char(&mut r, if mode & 0o010 != 0 { 'x' } else { '-' });
    push_char(&mut r, if mode & 0o004 != 0 { 'r' } else { '-' });
    push_char(&mut r, if mode & 0o002 != 0 { 'w' } else { '-' });
    push_char(&mut r, if mode & 0o001 != 0 { 'x' } else { '-' });
    assert(r@ =~= permission_text(mode, is_dir));
    r
}

/// The line for one entry under `options`.
pub fn format_entry(entry: &FileEntry, options: &LsOptions) -> (r: String)
    ensures
        r@ == entry_line(entry@, *options),
{
    if options.long_format {
        let mut r = permission_string(entry.mode, entry.is_dir);
        push_char(&mut r, ' ');
        r.append(pad_decimal(entry.size, 8).as_str());
        push_char(&mut r, ' ');
        r.append(pad_decimal(entry.modified, 12).as_str());
        push_char(&mut r, ' ');
        r.append(entry.name.as_str());
        assert(r@ =~= long_line(entry@));
        r
    } else {
        let mut r = String::from_str(entry.name.as_str());
        if entry.is_dir {
            push_char(&mut r, '/');
        }
        r
    }
}

/// Whether an entry is listed under `options`.
pub fn should_include(entry: &FileEntry, options: &LsOptions) -> (r: bool)
    ensures
        r == included(entry@, *options),
{
    options.show_hidden || !entry.is_hidden()
}

/// The lines for the entries in the order given.
pub fn list_entries(entries: &Vec<FileEntry>, options: &LsOptions) -> (r: Vec<String>)
    ensures
        views(r@) == listing(entry_views(entries@), *options),
{
    let ghost es = entry_views(entries@);
    let mut r: Vec<String> = Vec::new();
    let mut i: usize = 0;
    while i < entries.len()
        invariant
            i <= entries.len(),
            es == entry_views(entries@),
            views(r@) == listing(es.take(i as int), *options),
        decreases entries.len() - i,
    {
        proof {
            assert(es.take(i + 1).drop_last() =~= es.take(i as int));
        }
        if should_include(&entries[i], options) {
            let ghost prev = r@;
            r.push(format_entry(&entries[i], options));
            assert(views(r@) =~= views(prev).push(r@.last()@));
        }
        i = i + 1;
    }
    assert(es.take(entries.len() as int) =~= es);
    r
}

/// Inserting an entry after every name that it does not precede and before
/// one that it precedes keeps the order.
proof fn lemma_insert_sorted(r: Seq<FileEntry>, p: int, e: FileEntry)
    requires
        name_sorted(r),
        0 <= p <= r.len(),
        forall|j: int| 0 <= j < p ==> !precedes(e.name@, #[trigger] r[j].name@),
        p < r.len() ==> precedes(e.name@, r[p].name@),
    ensures
        name_sorted(r.insert(p, e)),
{
    let s = r.insert(p, e);
    assert forall|i: int, j: int| 0 <= i < j < s.len() implies !precedes(
        #[trigger] s[j].name@,
        #[trigger] s[i].name@,
    ) by {
        if i == p && j > p {
            if precedes(r[j - 1].name@, e.name@) {
                lemma_precedes_transitive(r[j - 1].name@, e.name@, r[p].name@);
                if j - 1 == p {
                    lemma_precedes_irreflexive(r[p].name@);
                }
            }
        }
    }
}

/// The entries ordered by name; an arrangement of the same entries.
pub fn sort_entries(entries: Vec<FileEntry>) -> (r: Vec<FileEntry>)
    ensures
        r@.to_multiset() == entries@.to_multiset(),
        name_sorted(r@),
{
    broadcast use vstd::seq_lib::group_to_multiset_ensures;

    let ghost all = entries@.to_multiset();
    let mut rest = entries;
    let mut r: Vec<FileEntry> = Vec::new();
    while rest.len() > 0
        invariant
            rest@.to_multiset().add(r@.to_multiset()) == all,
            name_sorted(r@),
        decreases rest.len(),
    {
        let ghost before = rest@;
        let e = match rest.pop() {
            Some(e) => e,
            None => {
                return r;
            },
        };
        proof {
            assert(before =~= rest@.push(e));
        }
        let mut p: usize = 0;
        while p < r.len() && !str_precedes(e.name.as_str(), r[p].name.as_str())
            invariant
                p <= r.len(),
                forall|j: int| 0 <= j < p ==> !precedes(e.name@, #[trigger] r@[j].name@),
            decreases r.len() - p,
        {
            p = p + 1;
        }
        proof {
            lemma_insert_sorted(r@, p as int, e);
        }
        let ghost prev = r@;
        r.insert(p, e);
        proof {
            assert(r@ == prev.insert(p as int, e));
            vstd::seq_lib::to_multiset_build(rest@, e);
            vstd::seq_lib::to_multiset_insert(prev, p as int, e);
            assert(before.to_multiset() == rest@.to_multiset().insert(e));
            assert(r@.to_multiset() == prev.to_multiset().insert(e));
            assert(rest@.to_multiset().add(r@.to_multiset()) =~= before.to_multiset().add(
                prev.to_multiset(),
            ));
        }
    }
    r
}

/// What was found at the path to list.
pub enum Target {
    /// Nothing exists there.
    Missing,
    /// It exists, but reading it or one of its entries failed with this error.
    Unreadable(String),
    /// It is not a directory; this is the last component of its path.
    File(String),
    /// A directory, with its entries in the order they were read.
    Directory(Vec<FileEntry>),
}

/// Why listing failed.
#[derive(PartialEq, Eq, Debug)]
pub enum LsError {
    NotFound,
    Io(String),
}

impl LsError {
    /// The text that describes the failure.
    pub fn message(&self) -> (r: String)
        ensures
            self is NotFound ==> r@ == "Path does not exist"@,
            self is Io ==> r@ == self->Io_0@,
    {
        match self {
            LsError::NotFound => String::from_str("Path does not exist"),
            LsError::Io(m) => m.clone(),
        }
    }
}

/// Lists the target: a missing path fails with `NotFound` and lists nothing, a
/// failed read fails with its error, a file lists its own name alone, and a
/// directory lists its entries ordered by name, filtered and formatted under
/// `options`.
pub fn run(target: Target, options: &LsOptions) -> (r: Result<Vec<String>, LsError>)
    ensures
        target is Missing ==> r matches Err(LsError::NotFound),
        target is Unreadable ==> (r matches Err(LsError::Io(m)) && m@ == target->Unreadable_0@),
        target is File ==> (r matches Ok(lines) && views(lines@) == seq![target->File_0@]),
        target is Directory ==> (r matches Ok(lines) && exists|sorted: Seq<FileEntry>|
            sorted.to_multiset() == target->Directory_0@.to_multiset() && name_sorted(sorted)
                && views(lines@) == listing(entry_views(sorted), *options)),
{
    match target {
        Target::Missing => Err(LsError::NotFound),
        Target::Unreadable(m) => Err(LsError::Io(m)),
        Target::File(name) => {
            let lines = vec![name];
            assert(views(lines@) =~= seq![lines@[0]@]);
            Ok(lines)
        },
        Target::Directory(entries) => {
            let sorted = sort_entries(entries);
            Ok(list_entries(&sorted, options))
        },
    }
}

/// The parsed command line of `ls`.
pub struct LsArgs {
    /// The first argument, or `.` when there is none.
    pub path: String,
    pub options: LsOptions,
}

/// The options after the flag letters in order.
pub open spec fn ls_flags_applied(o: LsOptions, flags: Seq<char>) -> LsOptions
    decreases flags.len(),
{
    if flags.len() == 0 {
        o
    } else {
        with_ls_flag(ls_flags_applied(o, flags.drop_last()), flags.last())
    }
}

/// The options of the arguments: every argument that starts with `-` gives
/// the letters after it.
pub open spec fn ls_options_of(args: Seq<Seq<char>>) -> LsOptions
    decreases args.len(),
{
    if args.len() == 0 {
        LsOptions { show_hidden: false, long_format: false }
    } else {
        let o = ls_options_of(args.drop_last());
        let a = args.last();
        if a.len() > 0 && a[0] == '-' {
            ls_flags_applied(o, a.drop_first())
        } else {
            o
        }
    }
}

/// Reads the arguments of `ls` (without the program's name).
pub fn parse_args(args: &Vec<String>) -> (r: LsArgs)
    ensures
        r.path@ == (if args.len() > 0 {
            args@[0]@
        } else {
            "."@
        }),
        r.options == ls_options_of(views(args@)),
{
    let ghost a = views(args@);
    let mut options = LsOptions::default();
    let mut i: usize = 0;
    while i < args.len()
        invariant
            i <= args.len(),
            a == views(args@),
            options == ls_options_of(a.take(i as int)),
        decreases args.len() - i,
    {
        proof {
            assert(a.take(i + 1).drop_last() =~= a.take(i as int));
        }
        let cs = chars_of(args[i].as_str());
        if cs.len() > 0 && cs[0] == '-' {
            let ghost o0 = options;
            let mut j: usize = 1;
            while j < cs.len()
                invariant
                    1 <= j <= cs.len(),
                    options == ls_flags_applied(o0, cs@.subrange(1, j as int)),
                decreases cs.len() - j,
            {
                proof {
                    assert(cs@.subrange(1, j + 1).drop_last() =~= cs@.subrange(1, j as int));
                }
                options.apply_flag(cs[j]);
                j = j + 1;
            }
            assert(cs@.subrange(1, cs.len() as int) =~= cs@.drop_first());
        }
        i = i + 1;
    }
    assert(a.take(args.len() as int) =~= a);
    let path = if args.len() > 0 {
        args[0].clone()
    } else {
        String::from_str(".")
    };
    LsArgs { path, options }
}

/// Entries with one name are one entry.
pub open spec fn names_identify(m: Multiset<FileEntry>) -> bool {
    forall|a: FileEntry, b: FileEntry|
        #![trigger m.count(a), m.count(b)]
        m.count(a) > 0 && m.count(b) > 0 && a.name@ == b.name@ ==> a == b
}

/// Two arrangements ordered by name of one collection whose names identify its
/// entries are the same sequence.
proof fn lemma_sorted_arrangements_equal(m: Multiset<FileEntry>, x: Seq<FileEntry>, y: Seq<FileEntry>)
    requires
        names_identify(m),
        x.to_multiset() == m,
        y.to_multiset() == m,
        name_sorted(x),
        name_sorted(y),
    ensures
        x == y,
    decreases x.len(),
{
    broadcast use vstd::seq_lib::group_to_multiset_ensures;

    vstd::seq_lib::to_multiset_len(x);
    vstd::seq_lib::to_multiset_len(y);
    if x.len() == 0 {
        assert(y.len() == 0);
        assert(x =~= y);
    } else {
        assert(y.len() == x.len());
        let x0 = x[0];
        let y0 = y[0];
        assert(x.contains(x0));
        assert(y.contains(y0));
        assert(m.count(x0) > 0);
        assert(m.count(y0) > 0);
        assert(y.contains(x0));
        assert(x.contains(y0));
        let j = choose|j: int| 0 <= j < y.len() && y[j] == x0;
        let i = choose|i: int| 0 <= i < x.len() && x[i] == y0;
        if x0.name@ != y0.name@ {
            lemma_precedes_total(x0.name@, y0.name@);
            if precedes(x0.name@, y0.name@) {
                assert(j != 0);
                assert(!precedes(y[j].name@, y[0].name@));
            } else {
                assert(i != 0);
                assert(!precedes(x[i].name@, x[0].name@));
            }
        }
        assert(x0 == y0);
        vstd::seq_lib::to_multiset_remove(x, 0);
        vstd::seq_lib::to_multiset_remove(y, 0);
        let xs = x.remove(0);
        let ys = y.remove(0);
        let rest = m.remove(x0);
        assert(names_identify(rest)) by {
            assert forall|a: FileEntry, b: FileEntry|
                rest.count(a) > 0 && rest.count(b) > 0 && a.name@ == b.name@ implies a == b by {
                assert(m.count(a) > 0);
                assert(m.count(b) > 0);
            }
        }
        assert(name_sorted(xs)) by {
            assert forall|p: int, q: int| 0 <= p < q < xs.len() implies !precedes(
                #[trigger] xs[q].name@,
                #[trigger] xs[p].name@,
            ) by {
                assert(xs[q] == x[q + 1] && xs[p] == x[p + 1]);
            }
        }
        assert(name_sorted(ys)) by {
            assert forall|p: int, q: int| 0 <= p < q < ys.len() implies !precedes(
                #[trigger] ys[q].name@,
                #[trigger] ys[p].name@,
            ) by {
                assert(ys[q] == y[q + 1] && ys[p] == y[p + 1]);
            }
        }
        lemma_sorted_arrangements_equal(rest, xs, ys);
        assert(x =~= seq![x0] + xs);
        assert(y =~= seq![y0] + ys);
    }
}

/// The order of a listing does not depend on the order in which the directory
/// was read: for two readings of the same entries, whose names are distinct as
/// a directory's are, the arrangements ordered by name are the same sequence,
/// and so are their listings.
pub proof fn lemma_listing_ignores_read_order(
    a: Seq<FileEntry>,
    b: Seq<FileEntry>,
    x: Seq<FileEntry>,
    y: Seq<FileEntry>,
    o: LsOptions,
)
    requires
        forall|i: int, j: int|
            0 <= i < j < a.len() ==> (#[trigger] a[i]).name@ != (#[trigger] a[j]).name@,
        a.to_multiset() == b.to_multiset(),
        x.to_multiset() == a.to_multiset(),
        y.to_multiset() == b.to_multiset(),
        name_sorted(x),
        name_sorted(y),
    ensures
        x == y,
        listing(entry_views(x), o) == listing(entry_views(y), o),
{
    broadcast use vstd::seq_lib::group_to_multiset_ensures;

    let m = a.to_multiset();
    assert(names_identify(m)) by {
        assert forall|e: FileEntry, f: FileEntry|
            m.count(e) > 0 && m.count(f) > 0 && e.name@ == f.name@ implies e == f by {
            assert(a.contains(e));
            assert(a.contains(f));
            let i = choose|i: int| 0 <= i < a.len() && a[i] == e;
            let j = choose|j: int| 0 <= j < a.len() && a[j] == f;
            if i < j {
                assert(a[i].name@ != a[j].name@);
            } else if j < i {
                assert(a[j].name@ != a[i].name@);
            }
        }
    }
    lemma_sorted_arrangements_equal(m, x, y);
}

} // verus!
