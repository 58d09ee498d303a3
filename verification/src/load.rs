//! Reading what trash directories hold: items, orphans and dangling infos.
use vstd::prelude::*;
use vstd::string::*;

use crate::bytes::{copy, has_suffix, join_with, lit};
use crate::dates::{time_is_ordered, DateTime};
use crate::info::{info_lines, info_text, original, original_of, parse, parsed, Kind};
use crate::paths::{comps, rendered};
use crate::put::{a_trashed_path_comes_back, field_of, may_come_back};
use crate::sort::{is_order, Ordered};
use crate::sys::{Ident, Meta};
use crate::table::Table;
use crate::text::{escape, escaped};
use crate::trash::{
    info_name_of, is_malformed_entry_name, malformed_name, strip_info_suffix, texts, Trash,
    TrashView, MAX_INFO_SIZE,
};

verus! {

/// An info file as it was read: which file, and its bytes.
pub struct InfoRead {
    pub id: Ident,
    pub bytes: Vec<u8>,
}

/// A trashed file with its info.
pub struct Item {
    /// The place of its trash directory in the list.
    pub trash: usize,
    pub name: Vec<u8>,
    pub original: Vec<u8>,
    pub date: DateTime,
    /// `files/NAME` when it was read.
    pub entry: Ident,
    /// Its info when it was read, held against a second look before deletion.
    pub info: InfoRead,
}

/// An entry of `files/` without an info that can be read.
pub struct Orphan {
    pub trash: usize,
    pub name: Vec<u8>,
    /// When its inode last changed, local time.
    pub date: DateTime,
    pub entry: Ident,
    /// A malformed info. Its bytes are empty where it was never read.
    pub info: Option<InfoRead>,
}

/// An info without its entry in `files/`.
pub struct Dangling {
    pub trash: usize,
    pub name: Vec<u8>,
    pub info: Ident,
}

/// What the trash directories hold.
pub struct Contents {
    pub items: Vec<Item>,
    pub orphans: Vec<Orphan>,
    pub dangling: Vec<Dangling>,
    pub warnings: Vec<String>,
}

/// What an `Item` holds.
#[verifier::ext_equal]
pub struct ItemView {
    pub trash: int,
    pub name: Seq<u8>,
    pub original: Seq<u8>,
    pub date: DateTime,
    pub entry: Ident,
    pub info: (Ident, Seq<u8>),
}

/// What an `Orphan` holds.
#[verifier::ext_equal]
pub struct OrphanView {
    pub trash: int,
    pub name: Seq<u8>,
    pub date: DateTime,
    pub entry: Ident,
    pub info: Option<(Ident, Seq<u8>)>,
}

/// What a `Dangling` holds.
#[verifier::ext_equal]
pub struct DanglingView {
    pub trash: int,
    pub name: Seq<u8>,
    pub info: Ident,
}

/// What `Contents` hold.
#[verifier::ext_equal]
pub struct ContentsView {
    pub items: Seq<ItemView>,
    pub orphans: Seq<OrphanView>,
    pub dangling: Seq<DanglingView>,
    pub warnings: Seq<Seq<char>>,
}

impl View for InfoRead {
    type V = (Ident, Seq<u8>);

    open spec fn view(&self) -> (Ident, Seq<u8>) {
        (self.id, self.bytes@)
    }
}

impl View for Item {
    type V = ItemView;

    open spec fn view(&self) -> ItemView {
        ItemView {
            trash: self.trash as int,
            name: self.name@,
            original: self.original@,
            date: self.date,
            entry: self.entry,
            info: self.info@,
        }
    }
}

/// What an info that may be missing holds.
pub open spec fn read_view(r: Option<InfoRead>) -> Option<(Ident, Seq<u8>)> {
    match r {
        Some(i) => Some(i@),
        None => None,
    }
}

impl View for Orphan {
    type V = OrphanView;

    open spec fn view(&self) -> OrphanView {
        OrphanView {
            trash: self.trash as int,
            name: self.name@,
            date: self.date,
            entry: self.entry,
            info: read_view(self.info),
        }
    }
}

impl View for Dangling {
    type V = DanglingView;

    open spec fn view(&self) -> DanglingView {
        DanglingView { trash: self.trash as int, name: self.name@, info: self.info }
    }
}

/// What a list of items holds.
pub open spec fn item_views(v: Seq<Item>) -> Seq<ItemView> {
    Seq::new(v.len(), |i: int| v[i]@)
}

/// What a list of orphans holds.
pub open spec fn orphan_views(v: Seq<Orphan>) -> Seq<OrphanView> {
    Seq::new(v.len(), |i: int| v[i]@)
}

/// What a list of dangling infos holds.
pub open spec fn dangling_views(v: Seq<Dangling>) -> Seq<DanglingView> {
    Seq::new(v.len(), |i: int| v[i]@)
}

impl View for Contents {
    type V = ContentsView;

    open spec fn view(&self) -> ContentsView {
        ContentsView {
            items: item_views(self.items@),
            orphans: orphan_views(self.orphans@),
            dangling: dangling_views(self.dangling@),
            warnings: texts(self.warnings@),
        }
    }
}

/// An item or an orphan, by its place in the contents.
#[derive(Clone, Copy, PartialEq, Eq, Debug, Structural)]
pub enum Which {
    Item(usize),
    Orphan(usize),
}

/// An entry with its date.
#[derive(Clone, Copy, PartialEq, Eq, Debug, Structural)]
pub struct Dated {
    pub date: DateTime,
    pub which: Which,
}

impl Ordered for Dated {
    /// The oldest first.
    open spec fn after(self, other: Dated) -> bool {
        other.date.earlier(self.date)
    }

    fn is_after(&self, other: &Dated) -> (r: bool) {
        other.date.is_before(&self.date)
    }
}

/// Dates are an order on entries.
pub proof fn dated_is_ordered()
    ensures
        is_order::<Dated>(),
{
    assert forall|a: Dated, b: Dated| #[trigger] a.after(b) implies !b.after(a) by {
        time_is_ordered(a.date, b.date, a.date);
        time_is_ordered(b.date, a.date, b.date);
    }
    assert forall|a: Dated, b: Dated, c: Dated|
        #![trigger a.after(b), b.after(c)]
        !a.after(b) && !b.after(c) implies !a.after(c) by {
        time_is_ordered(a.date, b.date, c.date);
        time_is_ordered(c.date, b.date, a.date);
        time_is_ordered(b.date, c.date, a.date);
        time_is_ordered(b.date, a.date, c.date);
        time_is_ordered(a.date, c.date, b.date);
        time_is_ordered(c.date, a.date, b.date);
    }
}

/// Every date is one of the calendar.
pub open spec fn dates_valid(items: Seq<ItemView>) -> bool {
    forall|i: int| 0 <= i < items.len() ==> (#[trigger] items[i]).date.valid()
}

// ---------------------------------------------------------------------------
// Reading an info file
// ---------------------------------------------------------------------------

/// Whether an info file is read at all: it must be a plain file, and not too
/// large.
pub fn may_read_info(is_file: bool, len: u64) -> (r: bool)
    ensures
        r == (is_file && len <= MAX_INFO_SIZE),
{
    is_file && len <= MAX_INFO_SIZE
}

/// What was read of an info file, if it stayed within the limit. The reading
/// stops one byte past it, so that a file that grew meanwhile is told apart.
pub fn reread_info(buf: Vec<u8>) -> (r: Vec<u8>)
    ensures
        r@ == (if buf@.len() <= MAX_INFO_SIZE {
            buf@
        } else {
            Seq::empty()
        }),
        r@.len() <= MAX_INFO_SIZE,
{
    if buf.len() as u64 > MAX_INFO_SIZE {
        let none: Vec<u8> = Vec::new();
        assert(none@ =~= Seq::empty());
        none
    } else {
        buf
    }
}

// ---------------------------------------------------------------------------
// One info, one entry
// ---------------------------------------------------------------------------

/// What `lstat` said of `files/NAME`.
#[derive(Clone, Copy, PartialEq, Eq, Debug, Structural)]
pub enum Look {
    Missing,
    Failed,
    Found(Meta),
}

/// What the system said of an info file and its entry.
pub struct InfoFacts {
    /// The info file itself; `None`: gone since the names were listed.
    pub lstat: Option<Ident>,
    pub files: Look,
    /// What could be read; `None`: it could not be opened.
    pub read: Option<InfoRead>,
    /// When the entry's inode last changed, local time.
    pub changed: DateTime,
}

/// What `InfoFacts` hold.
#[verifier::ext_equal]
pub struct InfoFactsView {
    pub lstat: Option<Ident>,
    pub files: Look,
    pub read: Option<(Ident, Seq<u8>)>,
    pub changed: DateTime,
}

impl View for InfoFacts {
    type V = InfoFactsView;

    open spec fn view(&self) -> InfoFactsView {
        InfoFactsView {
            lstat: self.lstat,
            files: self.files,
            read: read_view(self.read),
            changed: self.changed,
        }
    }
}

/// The warning about an info that makes no sense.
pub open spec fn malformed_warning(path: Seq<u8>, name: Seq<u8>) -> Seq<char> {
    escaped(path) + ": "@ + escaped(name) + ": malformed .trashinfo"@
}

/// An info file that cannot be read is named with its trash.
pub proof fn a_malformed_info_is_named(path: Seq<u8>, name: Seq<u8>)
    ensures
        malformed_warning(path, name) == escaped(path) + ": "@ + escaped(name)
            + ": malformed .trashinfo"@,
{
}

/// The original path and date that an info names, if it names them properly.
pub open spec fn item_of(kind: Kind, base: Seq<u8>, bytes: Seq<u8>) -> Option<
    (Seq<u8>, DateTime),
> {
    if bytes.len() == 0 {
        None
    } else {
        match parsed(bytes) {
            Ok(got) => match original_of(kind, base, got.0) {
                Ok(p) => Some((p, got.1)),
                Err(_) => None,
            },
            Err(_) => None,
        }
    }
}

/// Reads the original path and the date that an info names. What a file's info
/// was written with comes back: its path in the shortest form, and the date to
/// the second.
pub fn read_item(kind: Kind, base: &[u8], bytes: &[u8]) -> (r: Option<(Vec<u8>, DateTime)>)
    ensures
        match r {
            Some(got) => item_of(kind, base@, bytes@) == Some((got.0@, got.1)) && got.1.valid(),
            None => item_of(kind, base@, bytes@) is None,
        },
        forall|path: Seq<u8>, date: DateTime|
            #![trigger info_text(field_of(kind, base@, path), date)]
            bytes@ == info_text(field_of(kind, base@, path), date) && may_come_back(
                kind,
                base@,
                path,
            ) && date.valid() && date.year >= 0 ==> (r matches Some(got) && got.0@ == rendered(
                comps(path),
            ) && got.1 == date.whole()),
{
    let mut got: Option<(Vec<u8>, DateTime)> = None;
    if bytes.len() != 0 {
        if let Ok((p, date)) = parse(bytes) {
            if let Ok(o) = original(kind, base, p.as_slice()) {
                got = Some((o, date));
            }
        }
    }
    proof {
        assert forall|path: Seq<u8>, date: DateTime|
            #![trigger info_text(field_of(kind, base@, path), date)]
            bytes@ == info_text(field_of(kind, base@, path), date) && may_come_back(
                kind,
                base@,
                path,
            ) && date.valid() && date.year >= 0 implies (got matches Some(g) && g.0@ == rendered(
            comps(path),
        ) && g.1 == date.whole()) by {
            a_trashed_path_comes_back(kind, base@, path);
            info_is_not_empty(field_of(kind, base@, path), date);
        }
    }
    got
}

/// An info makes an item just where it can be read and names a path that its
/// trash directory may hold: that path, and the date that it says.
pub proof fn an_info_names_an_item(kind: Kind, base: Seq<u8>, bytes: Seq<u8>)
    ensures
        item_of(kind, base, bytes) is Some <==> bytes.len() > 0 && parsed(bytes) is Ok
            && original_of(kind, base, (parsed(bytes)->Ok_0).0) is Ok,
        item_of(kind, base, bytes) matches Some(got) ==> original_of(
            kind,
            base,
            (parsed(bytes)->Ok_0).0,
        ) == Ok::<Seq<u8>, Seq<char>>(got.0) && got.1 == (parsed(bytes)->Ok_0).1,
{
}

proof fn info_is_not_empty(path: Seq<u8>, date: DateTime)
    ensures
        info_text(path, date).len() > 0,
{
    let l = info_lines(path, date);
    assert(info_text(path, date) == join_with(l.drop_last(), 0x0a).push(0x0a) + l.last());
}

/// What one info and its entry add, and whether the entry is accounted for.
/// Without its entry an info dangles whatever is in it; with its entry it makes
/// an item if it names a path and a date, and otherwise an orphan.
pub open spec fn info_loaded(
    idx: int,
    t: TrashView,
    name: Seq<u8>,
    f: InfoFactsView,
    c: ContentsView,
) -> (ContentsView, bool) {
    match f.lstat {
        None => (c, false),
        Some(info_id) => match f.files {
            Look::Failed => (c, false),
            Look::Missing => (
                ContentsView {
                    dangling: c.dangling.push(
                        DanglingView { trash: idx, name, info: info_id },
                    ),
                    ..c
                },
                true,
            ),
            Look::Found(m) => {
                let orphan = |read: (Ident, Seq<u8>)|
                    ContentsView {
                        orphans: c.orphans.push(
                            OrphanView {
                                trash: idx,
                                name,
                                date: f.changed,
                                entry: m.id,
                                info: Some(read),
                            },
                        ),
                        warnings: c.warnings.push(malformed_warning(t.path, name)),
                        ..c
                    };
                match f.read {
                    None => (orphan((info_id, Seq::<u8>::empty())), true),
                    Some(read) => match item_of(t.kind, t.base, read.1) {
                        Some(got) => (
                            ContentsView {
                                items: c.items.push(
                                    ItemView {
                                        trash: idx,
                                        name,
                                        original: got.0,
                                        date: got.1,
                                        entry: m.id,
                                        info: read,
                                    },
                                ),
                                ..c
                            },
                            true,
                        ),
                        None => (orphan(read), true),
                    },
                }
            },
        },
    }
}

/// The entry is there, and its info is what a put writes for `path` at `date`.
pub open spec fn written_by_put(
    t: TrashView,
    f: InfoFactsView,
    path: Seq<u8>,
    date: DateTime,
) -> bool {
    &&& f.lstat is Some
    &&& f.files is Found
    &&& f.read is Some
    &&& (f.read->0).1 == info_text(field_of(t.kind, t.base, path), date)
    &&& may_come_back(t.kind, t.base, path)
    &&& date.valid()
    &&& date.year >= 0
}

/// What a name in `info/` stands for.
pub enum InfoName {
    /// Not an info file.
    Stray,
    /// An info file whose name no entry can have.
    Malformed(Vec<u8>),
    Entry(Vec<u8>),
}

/// What an `InfoName` holds.
pub enum InfoNameView {
    Stray,
    Malformed(Seq<u8>),
    Entry(Seq<u8>),
}

impl View for InfoName {
    type V = InfoNameView;

    open spec fn view(&self) -> InfoNameView {
        match self {
            InfoName::Stray => InfoNameView::Stray,
            InfoName::Malformed(n) => InfoNameView::Malformed(n@),
            InfoName::Entry(n) => InfoNameView::Entry(n@),
        }
    }
}

/// What a name in `info/` stands for.
pub open spec fn info_name_kind(info_name: Seq<u8>) -> InfoNameView {
    if !has_suffix(info_name, lit(".trashinfo")) {
        InfoNameView::Stray
    } else {
        let name = info_name.take(info_name.len() - lit(".trashinfo").len());
        if malformed_name(name) {
            InfoNameView::Malformed(name)
        } else {
            InfoNameView::Entry(name)
        }
    }
}

/// Tells what a name in `info/` stands for.
pub fn classify(info_name: &[u8]) -> (r: InfoName)
    ensures
        r@ == info_name_kind(info_name@),
{
    match strip_info_suffix(info_name) {
        None => InfoName::Stray,
        Some(name) => {
            proof {
                let tail = lit(".trashinfo");
                let n = info_name@.len() - tail.len();
                assert(info_name@.take(n) =~= name@);
                assert(info_name@.skip(n) =~= tail);
            }
            if is_malformed_entry_name(name.as_slice()) {
                InfoName::Malformed(name)
            } else {
                InfoName::Entry(name)
            }
        },
    }
}

/// A name that could lead out of `files/` is never looked up there: only a
/// name without slashes that is not `.` or `..` counts as an entry.
pub proof fn entries_are_proper_names(info_name: Seq<u8>)
    ensures
        info_name_kind(info_name) matches InfoNameView::Entry(n) ==> !malformed_name(n)
            && info_name == info_name_of(n),
{
    if has_suffix(info_name, lit(".trashinfo")) {
        let tail = lit(".trashinfo");
        let n = info_name.len() - tail.len();
        assert(info_name =~= info_name.take(n) + info_name.skip(n));
    }
}

/// A name in `info/` that ends in `.trashinfo` is that of an entry, if an entry can
/// have what is before it, and else malformed; any other name is a stray.
pub proof fn an_info_name_is_its_entrys(name: Seq<u8>, stray: Seq<u8>)
    ensures
        !malformed_name(name) ==> info_name_kind(name + lit(".trashinfo")) == InfoNameView::Entry(
            name,
        ),
        malformed_name(name) ==> info_name_kind(name + lit(".trashinfo"))
            == InfoNameView::Malformed(name),
        (forall|n: Seq<u8>| stray != #[trigger] (n + lit(".trashinfo"))) ==> info_name_kind(stray)
            == InfoNameView::Stray,
{
    let tail = lit(".trashinfo");
    let full = name + tail;
    assert(full.skip(full.len() - tail.len()) =~= tail);
    assert(full.take(full.len() - tail.len()) =~= name);
    if has_suffix(stray, tail) {
        let n = stray.take(stray.len() - tail.len());
        assert(stray =~= n + tail);
    }
}

// ---------------------------------------------------------------------------
// A whole trash directory
// ---------------------------------------------------------------------------

fn copy_read(r: &InfoRead) -> (out: InfoRead)
    ensures
        out@ == r@,
{
    InfoRead { id: r.id, bytes: copy(r.bytes.as_slice()) }
}

fn warn_malformed(path: &[u8], name: &[u8]) -> (s: String)
    ensures
        s@ == malformed_warning(path@, name@),
{
    let mut s = escape(path);
    s.append(": ");
    s.append(escape(name).as_str());
    s.append(": malformed .trashinfo");
    s
}

/// Contents being gathered, and the entries of the trash directory at hand that
/// an info accounts for.
pub struct Loader {
    pub c: Contents,
    pub paired: Table<Vec<u8>, bool>,
}

impl Loader {
    /// The entries an info accounts for.
    pub closed spec fn paired(self) -> Set<Seq<u8>> {
        self.paired.map().dom()
    }

    /// The table is in order.
    pub closed spec fn wf(self) -> bool {
        self.paired.wf()
    }

    /// Nothing read yet.
    pub fn new() -> (l: Loader)
        ensures
            l.wf(),
            l.c@ == (ContentsView {
                items: Seq::empty(),
                orphans: Seq::empty(),
                dangling: Seq::empty(),
                warnings: Seq::empty(),
            }),
            l.paired() == Set::<Seq<u8>>::empty(),
    {
        let l = Loader {
            c: Contents {
                items: Vec::new(),
                orphans: Vec::new(),
                dangling: Vec::new(),
                warnings: Vec::new(),
            },
            paired: Table::new(),
        };
        assert(l.c@ =~= ContentsView {
            items: Seq::empty(),
            orphans: Seq::empty(),
            dangling: Seq::empty(),
            warnings: Seq::empty(),
        });
        assert(l.paired() =~= Set::empty());
        l
    }

    /// Turns to another trash directory.
    pub fn start(&mut self)
        requires
            old(self).wf(),
        ensures
            final(self).wf(),
            final(self).c == old(self).c,
            final(self).paired() == Set::<Seq<u8>>::empty(),
    {
        self.paired = Table::new();
        assert(self.paired() =~= Set::empty());
    }

    fn pair(&mut self, name: Vec<u8>)
        requires
            old(self).wf(),
        ensures
            final(self).wf(),
            final(self).c == old(self).c,
            final(self).paired() == old(self).paired().insert(name@),
    {
        let ghost was = self.paired();
        self.paired.insert(name, true);
        assert(self.paired() =~= was.insert(name@));
    }

    fn push_orphan(&mut self, o: Orphan, warning: String)
        requires
            old(self).wf(),
        ensures
            final(self).wf(),
            final(self).paired() == old(self).paired(),
            final(self).c@ == (ContentsView {
                orphans: old(self).c@.orphans.push(o@),
                warnings: old(self).c@.warnings.push(warning@),
                ..old(self).c@
            }),
    {
        let ghost was = self.c@;
        self.c.orphans.push(o);
        self.c.warnings.push(warning);
        assert(self.c@ =~= ContentsView {
            orphans: was.orphans.push(o@),
            warnings: was.warnings.push(warning@),
            ..was
        });
    }

    /// Takes in one info and its entry. What a put wrote there is an item again,
    /// with the path that was trashed and its date to the second.
    pub fn load_info_entry(&mut self, idx: usize, t: &Trash, name: &[u8], f: &InfoFacts)
        requires
            old(self).wf(),
        ensures
            final(self).wf(),
            final(self).c@ == info_loaded(idx as int, t@, name@, f@, old(self).c@).0,
            dates_valid(old(self).c@.items) ==> dates_valid(final(self).c@.items),
            forall|path: Seq<u8>, date: DateTime|
                #![trigger info_text(field_of(t@.kind, t@.base, path), date)]
                written_by_put(t@, f@, path, date) ==> final(self).c@.items
                    == old(self).c@.items.push(
                    ItemView {
                        trash: idx as int,
                        name: name@,
                        original: rendered(comps(path)),
                        date: date.whole(),
                        entry: f@.files->0.id,
                        info: f@.read->0,
                    },
                ),
            final(self).paired() == (if info_loaded(
                idx as int,
                t@,
                name@,
                f@,
                old(self).c@,
            ).1 {
                old(self).paired().insert(name@)
            } else {
                old(self).paired()
            }),
    {
        let ghost was = self.c@;
        let info_id = match f.lstat {
            None => return,
            Some(i) => i,
        };
        let m = match f.files {
            Look::Failed => return,
            Look::Missing => {
                let d = Dangling { trash: idx, name: copy(name), info: info_id };
                self.c.dangling.push(d);
                assert(self.c@ =~= ContentsView { dangling: was.dangling.push(d@), ..was });
                self.pair(copy(name));
                return;
            },
            Look::Found(m) => m,
        };
        let read = match &f.read {
            None => {
                let none = InfoRead { id: info_id, bytes: Vec::new() };
                assert(none@.1 =~= Seq::<u8>::empty());
                let o = Orphan {
                    trash: idx,
                    name: copy(name),
                    date: f.changed,
                    entry: m.id,
                    info: Some(none),
                };
                self.push_orphan(o, warn_malformed(t.path.as_slice(), name));
                self.pair(copy(name));
                return;
            },
            Some(r) => r,
        };
        let got = read_item(t.kind, t.base.as_slice(), read.bytes.as_slice());
        match got {
            Some((original, date)) => {
                let it = Item {
                    trash: idx,
                    name: copy(name),
                    original,
                    date,
                    entry: m.id,
                    info: copy_read(read),
                };
                self.c.items.push(it);
                assert(self.c@ =~= ContentsView { items: was.items.push(it@), ..was });
            },
            None => {
                let o = Orphan {
                    trash: idx,
                    name: copy(name),
                    date: f.changed,
                    entry: m.id,
                    info: Some(copy_read(read)),
                };
                self.push_orphan(o, warn_malformed(t.path.as_slice(), name));
            },
        }
        self.pair(copy(name));
    }

    /// Takes in an info file whose name no entry can have: it dangles, and its
    /// name is never looked up. `info` is the file, if it is still there.
    pub fn load_malformed(&mut self, idx: usize, t: &Trash, name: &[u8], info: Option<Ident>)
        requires
            old(self).wf(),
        ensures
            final(self).wf(),
            final(self).paired() == old(self).paired(),
            final(self).c@ == (match info {
                Some(id) => ContentsView {
                    dangling: old(self).c@.dangling.push(
                        DanglingView { trash: idx as int, name: name@, info: id },
                    ),
                    warnings: old(self).c@.warnings.push(malformed_warning(t.path@, name@)),
                    ..old(self).c@
                },
                None => old(self).c@,
            }),
    {
        let ghost was = self.c@;
        if let Some(id) = info {
            let d = Dangling { trash: idx, name: copy(name), info: id };
            self.c.dangling.push(d);
            self.c.warnings.push(warn_malformed(t.path.as_slice(), name));
            assert(self.c@ =~= ContentsView {
                dangling: was.dangling.push(d@),
                warnings: was.warnings.push(malformed_warning(t.path@, name@)),
                ..was
            });
        }
    }

    /// Takes in an entry of `files/`. One that no info accounts for is an
    /// orphan. `entry` is the file, if it is still there.
    pub fn load_file(&mut self, idx: usize, name: &Vec<u8>, entry: Option<Ident>, changed: DateTime)
        requires
            old(self).wf(),
        ensures
            final(self).wf(),
            final(self).paired() == old(self).paired(),
            final(self).c@ == file_loaded(
                idx as int,
                name@,
                entry,
                changed,
                old(self).paired(),
                old(self).c@,
            ),
    {
        let ghost was = self.c@;
        if self.paired.get(name).is_some() {
            return;
        }
        if let Some(id) = entry {
            let o = Orphan {
                trash: idx,
                name: copy(name.as_slice()),
                date: changed,
                entry: id,
                info: None,
            };
            self.c.orphans.push(o);
            assert(self.c@ =~= ContentsView { orphans: was.orphans.push(o@), ..was });
        }
    }

    /// A directory could not be listed: `which` is `info/` or `files/`.
    pub fn unreadable(&mut self, t: &Trash, which: &str, e: &str)
        requires
            old(self).wf(),
        ensures
            final(self).wf(),
            final(self).paired() == old(self).paired(),
            final(self).c@ == (ContentsView {
                warnings: old(self).c@.warnings.push(
                    escaped(t.path@) + ": reading "@ + which@ + ": "@ + e@,
                ),
                ..old(self).c@
            }),
    {
        let ghost was = self.c@;
        let mut s = escape(t.path.as_slice());
        s.append(": reading ");
        s.append(which);
        s.append(": ");
        s.append(e);
        self.c.warnings.push(s);
        assert(self.c@ =~= ContentsView { warnings: was.warnings.push(s@), ..was });
    }
}

/// Nothing is counted twice and nothing lost: one info with its entry adds
/// exactly one item, orphan or dangling info, and then its entry is accounted
/// for; otherwise it adds nothing at all.
pub proof fn each_info_counts_once(
    idx: int,
    t: TrashView,
    name: Seq<u8>,
    f: InfoFactsView,
    c: ContentsView,
)
    ensures
        ({
            let (d, accounted) = info_loaded(idx, t, name, f, c);
            &&& d.items.len() + d.orphans.len() + d.dangling.len() == c.items.len()
                + c.orphans.len() + c.dangling.len() + (if accounted {
                1int
            } else {
                0
            })
            &&& !accounted ==> d == c
        }),
{
}

/// What an info adds, by what is found of its entry: with the entry there, an item
/// where it names one, and else an orphan, with a warning; without the entry a
/// dangling info. Where the info is gone, or the entry cannot be looked at, it adds
/// nothing. Nothing else changes.
pub proof fn an_info_adds_what_it_is(
    idx: int,
    t: TrashView,
    name: Seq<u8>,
    f: InfoFactsView,
    c: ContentsView,
)
    ensures
        ({
            let (d, accounted) = info_loaded(idx, t, name, f, c);
            let got = if f.read is Some {
                item_of(t.kind, t.base, (f.read->0).1)
            } else {
                None
            };
            let there = f.lstat is Some && f.files is Found;
            let alone = f.lstat is Some && f.files is Missing;
            &&& accounted <==> there || alone
            &&& d.items == (if there && got is Some {
                c.items.push(
                    ItemView {
                        trash: idx,
                        name,
                        original: (got->0).0,
                        date: (got->0).1,
                        entry: f.files->Found_0.id,
                        info: f.read->0,
                    },
                )
            } else {
                c.items
            })
            &&& d.orphans == (if there && got is None {
                c.orphans.push(
                    OrphanView {
                        trash: idx,
                        name,
                        date: f.changed,
                        entry: f.files->Found_0.id,
                        info: Some(
                            match f.read {
                                Some(r) => r,
                                None => (f.lstat->0, Seq::<u8>::empty()),
                            },
                        ),
                    },
                )
            } else {
                c.orphans
            })
            &&& d.dangling == (if alone {
                c.dangling.push(DanglingView { trash: idx, name, info: f.lstat->0 })
            } else {
                c.dangling
            })
            &&& d.warnings == (if there && got is None {
                c.warnings.push(
                    escaped(t.path) + ": "@ + escaped(name) + ": malformed .trashinfo"@,
                )
            } else {
                c.warnings
            })
        }),
{
}

/// A trash directory's infos taken in, one after the other: each by the name of
/// its entry, with what was found. Second: the entries that are accounted for.
pub open spec fn infos_loaded(
    idx: int,
    t: TrashView,
    infos: Seq<(Seq<u8>, InfoFactsView)>,
    c: ContentsView,
) -> (ContentsView, Set<Seq<u8>>)
    decreases infos.len(),
{
    if infos.len() == 0 {
        (c, Set::empty())
    } else {
        let (d, paired) = infos_loaded(idx, t, infos.drop_last(), c);
        let (name, f) = infos.last();
        let (e, accounted) = info_loaded(idx, t, name, f, d);
        (
            e,
            if accounted {
                paired.insert(name)
            } else {
                paired
            },
        )
    }
}

/// An entry of `files/` taken in: an orphan, unless an info accounts for it.
pub open spec fn file_loaded(
    idx: int,
    name: Seq<u8>,
    entry: Option<Ident>,
    changed: DateTime,
    paired: Set<Seq<u8>>,
    c: ContentsView,
) -> ContentsView {
    if entry is Some && !paired.contains(name) {
        ContentsView {
            orphans: c.orphans.push(
                OrphanView { trash: idx, name, date: changed, entry: entry->0, info: None },
            ),
            ..c
        }
    } else {
        c
    }
}

/// An entry that is there and that no info accounts for is an orphan without an
/// info, dated by its last change; any other adds nothing.
pub proof fn an_entry_without_info_is_an_orphan(
    idx: int,
    name: Seq<u8>,
    entry: Option<Ident>,
    changed: DateTime,
    paired: Set<Seq<u8>>,
    c: ContentsView,
)
    ensures
        ({
            let d = file_loaded(idx, name, entry, changed, paired, c);
            &&& d.items == c.items
            &&& d.dangling == c.dangling
            &&& d.warnings == c.warnings
            &&& d.orphans == (match entry {
                Some(id) if !paired.contains(name) => c.orphans.push(
                    OrphanView { trash: idx, name, date: changed, entry: id, info: None },
                ),
                _ => c.orphans,
            })
        }),
{
}

/// The entries of `files/` taken in, after the infos.
pub open spec fn files_loaded(
    idx: int,
    files: Seq<(Seq<u8>, Option<Ident>, DateTime)>,
    paired: Set<Seq<u8>>,
    c: ContentsView,
) -> ContentsView
    decreases files.len(),
{
    if files.len() == 0 {
        c
    } else {
        let d = files_loaded(idx, files.drop_last(), paired, c);
        file_loaded(idx, files.last().0, files.last().1, files.last().2, paired, d)
    }
}

/// How many items of a trash directory have a name.
pub open spec fn items_named(items: Seq<ItemView>, idx: int, name: Seq<u8>) -> int
    decreases items.len(),
{
    if items.len() == 0 {
        0
    } else {
        items_named(items.drop_last(), idx, name) + (if items.last().trash == idx
            && items.last().name == name {
            1int
        } else {
            0
        })
    }
}

/// How many orphans of a trash directory have a name.
pub open spec fn orphans_named(orphans: Seq<OrphanView>, idx: int, name: Seq<u8>) -> int
    decreases orphans.len(),
{
    if orphans.len() == 0 {
        0
    } else {
        orphans_named(orphans.drop_last(), idx, name) + (if orphans.last().trash == idx
            && orphans.last().name == name {
            1int
        } else {
            0
        })
    }
}

/// How many items and orphans of a trash directory have a name.
pub open spec fn named(c: ContentsView, idx: int, name: Seq<u8>) -> int {
    items_named(c.items, idx, name) + orphans_named(c.orphans, idx, name)
}

/// One info adds to the count of its own name only: one, where it accounts for
/// an entry that is there.
proof fn info_names_its_own(
    idx: int,
    t: TrashView,
    own: Seq<u8>,
    f: InfoFactsView,
    c: ContentsView,
    name: Seq<u8>,
)
    ensures
        ({
            let (d, accounted) = info_loaded(idx, t, own, f, c);
            named(d, idx, name) == named(c, idx, name) + (if accounted && f.files is Found && own
                == name {
                1int
            } else {
                0
            })
        }),
{
    assert forall|it: ItemView| #[trigger]
        items_named(c.items.push(it), idx, name) == items_named(c.items, idx, name) + (if it.trash
            == idx && it.name == name {
            1int
        } else {
            0
        }) by {
        assert(c.items.push(it).drop_last() =~= c.items);
    }
    assert forall|o: OrphanView| #[trigger]
        orphans_named(c.orphans.push(o), idx, name) == orphans_named(c.orphans, idx, name) + (
        if o.trash == idx && o.name == name {
            1int
        } else {
            0
        }) by {
        assert(c.orphans.push(o).drop_last() =~= c.orphans);
    }
}

/// The infos of the first listing have the names of different entries.
pub open spec fn infos_differ(infos: Seq<(Seq<u8>, InfoFactsView)>) -> bool {
    forall|i: int, j: int|
        #![trigger infos[i], infos[j]]
        0 <= i < j < infos.len() ==> infos[i].0 != infos[j].0
}

/// The entries of the second listing have different names.
pub open spec fn files_differ(files: Seq<(Seq<u8>, Option<Ident>, DateTime)>) -> bool {
    forall|i: int, j: int|
        #![trigger files[i], files[j]]
        0 <= i < j < files.len() ==> files[i].0 != files[j].0
}

/// An entry of `files/` has this name.
pub open spec fn is_listed(
    files: Seq<(Seq<u8>, Option<Ident>, DateTime)>,
    name: Seq<u8>,
) -> bool {
    exists|j: int| 0 <= j < files.len() && (#[trigger] files[j]).0 == name
}

/// After the first listing: an entry is accounted for only by an info of its
/// name, and where that saw the entry, it counts once; all others count as
/// before.
proof fn infos_count_once(
    idx: int,
    t: TrashView,
    infos: Seq<(Seq<u8>, InfoFactsView)>,
    c: ContentsView,
    name: Seq<u8>,
)
    requires
        infos_differ(infos),
        forall|i: int|
            #![trigger infos[i]]
            0 <= i < infos.len() && infos[i].0 == name ==> !(infos[i].1.files is Missing),
    ensures
        ({
            let (d, paired) = infos_loaded(idx, t, infos, c);
            &&& named(d, idx, name) == named(c, idx, name) + (if paired.contains(name) {
                1int
            } else {
                0
            })
            &&& paired.contains(name) ==> exists|i: int|
                0 <= i < infos.len() && (#[trigger] infos[i]).0 == name
        }),
    decreases infos.len(),
{
    if infos.len() > 0 {
        let front = infos.drop_last();
        let (d, paired) = infos_loaded(idx, t, front, c);
        let (own, f) = infos.last();
        assert(infos[infos.len() - 1] == infos.last());
        assert forall|i: int, j: int|
            #![trigger front[i], front[j]]
            0 <= i < j < front.len() implies front[i].0 != front[j].0 by {
            assert(front[i] == infos[i] && front[j] == infos[j]);
        }
        assert forall|i: int|
            #![trigger front[i]]
            0 <= i < front.len() && front[i].0 == name implies !(front[i].1.files is Missing) by {
            assert(front[i] == infos[i]);
        }
        infos_count_once(idx, t, front, c, name);
        info_names_its_own(idx, t, own, f, d, name);
        if paired.contains(name) {
            let i = choose|i: int| 0 <= i < front.len() && (#[trigger] front[i]).0 == name;
            assert(infos[i] == front[i]);
            assert(own != name);
        }
    }
}

/// After the second listing: an entry that is there and not accounted for counts
/// once more, every other name as before.
proof fn files_count_once(
    idx: int,
    files: Seq<(Seq<u8>, Option<Ident>, DateTime)>,
    paired: Set<Seq<u8>>,
    c: ContentsView,
    name: Seq<u8>,
)
    requires
        files_differ(files),
        forall|j: int| 0 <= j < files.len() ==> (#[trigger] files[j]).1 is Some,
    ensures
        named(files_loaded(idx, files, paired, c), idx, name) == named(c, idx, name) + (
        if is_listed(files, name) && !paired.contains(name) {
            1int
        } else {
            0
        }),
    decreases files.len(),
{
    if files.len() > 0 {
        let front = files.drop_last();
        let d = files_loaded(idx, front, paired, c);
        let last = files.last();
        assert(files[files.len() - 1] == last);
        assert forall|i: int, j: int|
            #![trigger front[i], front[j]]
            0 <= i < j < front.len() implies front[i].0 != front[j].0 by {
            assert(front[i] == files[i] && front[j] == files[j]);
        }
        assert forall|j: int| 0 <= j < front.len() implies (#[trigger] front[j]).1 is Some by {
            assert(front[j] == files[j]);
        }
        files_count_once(idx, front, paired, c, name);
        if is_listed(front, name) {
            let j = choose|j: int| 0 <= j < front.len() && (#[trigger] front[j]).0 == name;
            assert(files[j] == front[j]);
        }
        if is_listed(files, name) && last.0 != name {
            let j = choose|j: int| 0 <= j < files.len() && (#[trigger] files[j]).0 == name;
            assert(front[j] == files[j]);
        }
        let o = OrphanView {
            trash: idx,
            name: last.0,
            date: last.2,
            entry: last.1->0,
            info: None,
        };
        assert(d.orphans.push(o).drop_last() =~= d.orphans);
    }
}

/// Over both listings of a trash directory, with nothing changing meanwhile,
/// every name in `files/` is that of exactly one item or orphan, and no other
/// name is that of any: nothing in the trash is lost or counted twice.
pub proof fn each_entry_counts_once(
    idx: int,
    t: TrashView,
    infos: Seq<(Seq<u8>, InfoFactsView)>,
    files: Seq<(Seq<u8>, Option<Ident>, DateTime)>,
    c: ContentsView,
    name: Seq<u8>,
)
    requires
        infos_differ(infos),
        files_differ(files),
        forall|j: int| 0 <= j < files.len() ==> (#[trigger] files[j]).1 is Some,
        forall|i: int|
            #![trigger infos[i]]
            0 <= i < infos.len() ==> (infos[i].1.files is Missing <==> !is_listed(
                files,
                infos[i].0,
            )),
        named(c, idx, name) == 0,
    ensures
        ({
            let (d, paired) = infos_loaded(idx, t, infos, c);
            named(files_loaded(idx, files, paired, d), idx, name) == (if is_listed(files, name) {
                1int
            } else {
                0
            })
        }),
{
    let (d, paired) = infos_loaded(idx, t, infos, c);
    files_count_once(idx, files, paired, d, name);
    if is_listed(files, name) {
        infos_count_once(idx, t, infos, c, name);
    } else {
        unlisted_names_stay_out(idx, t, infos, c, name);
    }
}

proof fn unlisted_names_stay_out(
    idx: int,
    t: TrashView,
    infos: Seq<(Seq<u8>, InfoFactsView)>,
    c: ContentsView,
    name: Seq<u8>,
)
    requires
        forall|i: int|
            #![trigger infos[i]]
            0 <= i < infos.len() && infos[i].0 == name ==> infos[i].1.files is Missing,
    ensures
        named(infos_loaded(idx, t, infos, c).0, idx, name) == named(c, idx, name),
    decreases infos.len(),
{
    if infos.len() > 0 {
        let front = infos.drop_last();
        assert(infos[infos.len() - 1] == infos.last());
        assert forall|i: int|
            #![trigger front[i]]
            0 <= i < front.len() && front[i].0 == name implies front[i].1.files is Missing by {
            assert(front[i] == infos[i]);
        }
        unlisted_names_stay_out(idx, t, front, c, name);
        let (d, paired) = infos_loaded(idx, t, front, c);
        info_names_its_own(idx, t, infos.last().0, infos.last().1, d, name);
    }
}

/// A topdir's info becomes an item only with a path strictly beneath the
/// topdir.
pub proof fn items_stay_beneath_their_topdir(kind: Kind, base: Seq<u8>, bytes: Seq<u8>)
    requires
        kind != Kind::Home,
        base.len() > 0,
        item_of(kind, base, bytes) is Some,
    ensures
        ({
            let (path, date) = item_of(kind, base, bytes)->0;
            let p = crate::paths::comps(path);
            let b = crate::paths::comps(base);
            crate::paths::under(p, b) && b.len() < p.len() && !p.skip(b.len() as int).contains(
                crate::paths::parent_comp(),
            )
        }),
{
    let got = parsed(bytes)->Ok_0;
    crate::info::original_stays_beneath(kind, base, got.0);
}

} // verus!
