//! Trash directories: finding and opening them.
use vstd::prelude::*;
use vstd::string::*;
use vstd::utf8::*;

use crate::bytes::{append, copy, has_suffix, lit, of, same, strip_suffix};
use crate::info::{Kind, INFO_SUFFIX};
use crate::mounts::{MountView, Mounts};
use crate::paths::{a_name_is_one_component_more, absolute, comps, is_absolute, join, joined};
use crate::sys::{one_file, Ident, Meta, EACCES, ELOOP, ENOENT, ENOTDIR};
use crate::text::{
    decimal, decimal_is_digits, encoding_is_piecewise, escape, escaped, number,
};

verus! {

/// No info file is read past this size; nothing real is that large.
pub const MAX_INFO_SIZE: u64 = 65536;

/// A trash directory.
pub struct Trash {
    pub kind: Kind,
    /// Where it was found.
    pub path: Vec<u8>,
    /// What a relative `Path=` starts from: `$XDG_DATA_HOME` or the topdir.
    pub base: Vec<u8>,
    pub id: Ident,
    pub files_id: Ident,
}

/// What a `Trash` holds.
#[verifier::ext_equal]
pub struct TrashView {
    pub kind: Kind,
    pub path: Seq<u8>,
    pub base: Seq<u8>,
    pub id: Ident,
    pub files_id: Ident,
}

impl View for Trash {
    type V = TrashView;

    open spec fn view(&self) -> TrashView {
        TrashView {
            kind: self.kind,
            path: self.path@,
            base: self.base@,
            id: self.id,
            files_id: self.files_id,
        }
    }
}

/// What a list of trash directories holds.
pub open spec fn trash_views(v: Seq<Trash>) -> Seq<TrashView> {
    Seq::new(v.len(), |i: int| v[i]@)
}

// ---------------------------------------------------------------------------
// Names
// ---------------------------------------------------------------------------

/// `NAME.trashinfo`.
pub open spec fn info_name_of(name: Seq<u8>) -> Seq<u8> {
    name + lit(".trashinfo")
}

/// The name of an entry's info file.
pub fn info_file_name(name: &[u8]) -> (v: Vec<u8>)
    ensures
        v@ == info_name_of(name@),
{
    let mut v = copy(name);
    append(&mut v, of(INFO_SUFFIX).as_slice());
    v
}

/// The name of the entry that an info file is for.
pub fn strip_info_suffix(info_name: &[u8]) -> (r: Option<Vec<u8>>)
    ensures
        match r {
            Some(name) => info_name@ == info_name_of(name@),
            None => !has_suffix(info_name@, lit(".trashinfo")),
        },
{
    let tail = of(INFO_SUFFIX);
    let r = strip_suffix(info_name, tail.as_slice());
    proof {
        if r is Some {
            let n = info_name@.len() - tail@.len();
            assert(info_name@ =~= info_name@.take(n) + info_name@.skip(n));
        }
    }
    r
}

/// A name that no entry of `files/` can have: empty, `.`, `..`, or with a slash
/// in it. Looked up, `..` would be the trash directory itself.
pub open spec fn malformed_name(name: Seq<u8>) -> bool {
    name.len() == 0 || name == seq![0x2eu8] || name == seq![0x2eu8, 0x2eu8] || name.contains(0x2f)
}

/// Whether no entry of `files/` can have this name.
pub fn is_malformed_entry_name(name: &[u8]) -> (r: bool)
    ensures
        r == malformed_name(name@),
{
    let mut dot: Vec<u8> = Vec::new();
    dot.push(0x2e);
    assert(dot@ =~= seq![0x2eu8]);
    if name.len() == 0 || same(name, dot.as_slice()) {
        return true;
    }
    dot.push(0x2e);
    assert(dot@ =~= seq![0x2eu8, 0x2eu8]);
    same(name, dot.as_slice()) || crate::bytes::find(name, 0x2f).is_some()
}

// ---------------------------------------------------------------------------
// The home trash
// ---------------------------------------------------------------------------

/// Errors that mean that no usable trash directory is there.
pub open spec fn skipped_silently(errno: i32) -> bool {
    errno == ENOENT || errno == EACCES || errno == ENOTDIR || errno == ELOOP
}

/// Whether an error means that no usable trash directory is there; any other is
/// worth a warning.
pub fn silent_skip(errno: i32) -> (r: bool)
    ensures
        r == skipped_silently(errno),
{
    errno == ENOENT || errno == EACCES || errno == ENOTDIR || errno == ELOOP
}

/// A variable that is set, not empty and an absolute path.
pub open spec fn abs_var(v: Option<Seq<u8>>) -> bool {
    v matches Some(p) && absolute(p)
}

/// The contents of a variable.
pub open spec fn var_view(v: Option<Vec<u8>>) -> Option<Seq<u8>> {
    match v {
        Some(x) => Some(x@),
        None => None,
    }
}

/// The directory that holds the home trash, or why it cannot be told.
pub open spec fn data_home_of(xdg: Option<Seq<u8>>, home: Option<Seq<u8>>) -> Result<
    Seq<u8>,
    Seq<char>,
> {
    if abs_var(xdg) {
        Ok(xdg->0)
    } else {
        match home {
            None => Err("HOME is not set"@),
            Some(h) => if h.len() == 0 {
                Err("HOME is not set"@)
            } else if !absolute(h) {
                Err("HOME is not an absolute path"@)
            } else {
                Ok(joined(h, lit(".local/share")))
            },
        }
    }
}

/// The directory that holds the home trash: `$XDG_DATA_HOME` if that is set, not
/// empty and absolute, else `$HOME/.local/share`. A relative `Path=` in the home
/// trash starts here, wherever the trash itself may lead.
pub fn data_home(xdg: Option<Vec<u8>>, home: Option<Vec<u8>>) -> (r: Result<Vec<u8>, &'static str>)
    ensures
        match r {
            Ok(p) => data_home_of(var_view(xdg), var_view(home)) == Ok::<Seq<u8>, Seq<char>>(p@),
            Err(e) => data_home_of(var_view(xdg), var_view(home)) == Err::<Seq<u8>, Seq<char>>(e@),
        },
{
    if let Some(p) = xdg {
        if is_absolute(p.as_slice()) {
            return Ok(p);
        }
    }
    match home {
        None => Err("HOME is not set"),
        Some(h) => {
            if h.len() == 0 {
                Err("HOME is not set")
            } else if !is_absolute(h.as_slice()) {
                Err("HOME is not an absolute path")
            } else {
                Ok(join(h.as_slice(), of(".local/share").as_slice()))
            }
        },
    }
}

/// Where the home trash is.
pub fn home_path(xdg: Option<Vec<u8>>, home: Option<Vec<u8>>) -> (r: Result<Vec<u8>, &'static str>)
    ensures
        match r {
            Ok(p) => data_home_of(var_view(xdg), var_view(home)) matches Ok(d) && p@ == joined(
                d,
                lit("Trash"),
            ),
            Err(e) => data_home_of(var_view(xdg), var_view(home)) == Err::<Seq<u8>, Seq<char>>(e@),
        },
{
    match data_home(xdg, home) {
        Ok(d) => Ok(join(d.as_slice(), of("Trash").as_slice())),
        Err(e) => Err(e),
    }
}

/// The home trash is in the data directory: the one that the variable names, if
/// that is absolute, and else `.local/share` in the home directory, which must be
/// absolute too.
pub proof fn the_data_home_is_absolute(xdg: Option<Seq<u8>>, home: Option<Seq<u8>>)
    ensures
        ({
            let named = xdg is Some && (xdg->0).len() > 0 && (xdg->0)[0] == 0x2f;
            let housed = home is Some && (home->0).len() > 0 && (home->0)[0] == 0x2f;
            let r = data_home_of(xdg, home);
            &&& named ==> r == Ok::<Seq<u8>, Seq<char>>(xdg->0)
            &&& !named && housed ==> r == Ok::<Seq<u8>, Seq<char>>(
                joined(home->0, lit(".local/share")),
            )
            &&& !named && (home is None || (home->0).len() == 0) ==> r == Err::<
                Seq<u8>,
                Seq<char>,
            >("HOME is not set"@)
            &&& !named && !housed && home is Some && (home->0).len() > 0 ==> r == Err::<
                Seq<u8>,
                Seq<char>,
            >("HOME is not an absolute path"@)
            &&& abs_var(xdg) == named
        }),
{
}

// ---------------------------------------------------------------------------
// Opening
// ---------------------------------------------------------------------------

/// Whether a directory is to be looked at further as a trash directory.
#[derive(Clone, Copy, PartialEq, Eq, Debug, Structural)]
pub enum Gate {
    Go,
    /// Not a trash directory of ours: nothing to say about it.
    Skip,
    /// Opening failed in a way that is worth a warning.
    Fail,
}

/// What opening a directory says: its owner, or an error.
pub open spec fn gate_of(opened: Result<u32, i32>, uid: u32) -> Gate {
    match opened {
        Ok(owner) => if owner == uid {
            Gate::Go
        } else {
            Gate::Skip
        },
        Err(e) => if skipped_silently(e) {
            Gate::Skip
        } else {
            Gate::Fail
        },
    }
}

/// Decides whether a directory is looked at further: it must open, links not
/// followed, and be ours.
pub fn open_trash(opened: Result<u32, i32>, uid: u32) -> (g: Gate)
    ensures
        g == gate_of(opened, uid),
{
    match opened {
        Ok(owner) => {
            if owner == uid {
                Gate::Go
            } else {
                Gate::Skip
            }
        },
        Err(e) => {
            if silent_skip(e) {
                Gate::Skip
            } else {
                Gate::Fail
            }
        },
    }
}

/// A directory of ours is looked at further. One of somebody else's is passed
/// over, and so is one that is not there, may not be entered, is no directory or a
/// loop of links; any other error is told.
pub proof fn only_our_own_is_looked_at(owner: u32, uid: u32, errno: i32)
    ensures
        gate_of(Ok(owner), uid) == (if owner == uid {
            Gate::Go
        } else {
            Gate::Skip
        }),
        gate_of(Err(errno), uid) == (if errno == 2 || errno == 13 || errno == 20 || errno == 40 {
            Gate::Skip
        } else {
            Gate::Fail
        }),
        skipped_silently(errno) <==> errno == 2 || errno == 13 || errno == 20 || errno == 40,
{
}

/// What came of opening a subdirectory of a trash directory.
pub enum Sub {
    Missing,
    /// Could not be opened.
    Failed(String),
    /// Opened, but could not be identified.
    Unknown(String),
    Opened(Ident),
}

/// What a `Sub` holds.
pub enum SubView {
    Missing,
    Failed(Seq<char>),
    Unknown(Seq<char>),
    Opened(Ident),
}

impl View for Sub {
    type V = SubView;

    open spec fn view(&self) -> SubView {
        match self {
            Sub::Missing => SubView::Missing,
            Sub::Failed(e) => SubView::Failed(e@),
            Sub::Unknown(e) => SubView::Unknown(e@),
            Sub::Opened(i) => SubView::Opened(*i),
        }
    }
}

/// The trash directory that these two subdirectories make, if they make one.
/// Where both are missing that may be in order; where one is, never.
pub open spec fn opened_of(
    kind: Kind,
    path: Seq<u8>,
    base: Seq<u8>,
    id: Ident,
    files: SubView,
    info: SubView,
    missing_ok: bool,
) -> Result<Option<TrashView>, Seq<char>> {
    if missing_ok && files is Missing && info is Missing {
        Ok(None)
    } else {
        match (files, info) {
            (SubView::Missing, _) => Err("its files/ subdirectory is missing"@),
            (SubView::Failed(e), _) => Err(e),
            (_, SubView::Missing) => Err("its info/ subdirectory is missing"@),
            (_, SubView::Failed(e)) => Err(e),
            (SubView::Unknown(e), _) => Err(e),
            (_, SubView::Unknown(e)) => Err(e),
            (SubView::Opened(f), SubView::Opened(i)) => if f.mnt != id.mnt || i.mnt != id.mnt {
                Err("its files/ or info/ subdirectory is on another mount"@)
            } else {
                Ok(Some(TrashView { kind, path, base, id, files_id: f }))
            },
        }
    }
}

/// What opening a trash directory came to.
pub open spec fn opened_view(r: Result<Option<Trash>, String>) -> Result<
    Option<TrashView>,
    Seq<char>,
> {
    match r {
        Ok(Some(t)) => Ok(Some(t@)),
        Ok(None) => Ok(None),
        Err(e) => Err(e@),
    }
}

/// Makes a trash directory of its two subdirectories, which must be on its own
/// mount. `missing_ok` says whether both may be missing.
pub fn finish_open(
    kind: Kind,
    path: Vec<u8>,
    base: Vec<u8>,
    id: Ident,
    files: Sub,
    info: Sub,
    missing_ok: bool,
) -> (r: Result<Option<Trash>, String>)
    ensures
        opened_view(r) == opened_of(kind, path@, base@, id, files@, info@, missing_ok),
{
    match (files, info) {
        (Sub::Missing, Sub::Missing) => {
            if missing_ok {
                Ok(None)
            } else {
                Err("its files/ subdirectory is missing".to_owned())
            }
        },
        (Sub::Missing, _) => Err("its files/ subdirectory is missing".to_owned()),
        (Sub::Failed(e), _) => Err(e),
        (_, Sub::Missing) => Err("its info/ subdirectory is missing".to_owned()),
        (_, Sub::Failed(e)) => Err(e),
        (Sub::Unknown(e), _) => Err(e),
        (_, Sub::Unknown(e)) => Err(e),
        (Sub::Opened(f), Sub::Opened(i)) => {
            if f.mnt != id.mnt || i.mnt != id.mnt {
                Err("its files/ or info/ subdirectory is on another mount".to_owned())
            } else {
                Ok(Some(Trash { kind, path, base, id, files_id: f }))
            }
        },
    }
}

/// A trash directory that opens lies on one mount, with its own identity and
/// kind; and where exactly one subdirectory is missing, none ever opens, nor is
/// that passed over in silence.
pub proof fn half_a_trash_is_an_error(
    kind: Kind,
    path: Seq<u8>,
    base: Seq<u8>,
    id: Ident,
    files: SubView,
    info: SubView,
    missing_ok: bool,
)
    ensures
        (files is Missing) != (info is Missing) ==> opened_of(
            kind,
            path,
            base,
            id,
            files,
            info,
            missing_ok,
        ) is Err,
        opened_of(kind, path, base, id, files, info, missing_ok) matches Ok(Some(t)) ==> t.id == id
            && t.files_id.mnt == id.mnt && t.kind == kind,
{
}

/// A directory with both its subdirectories, on its own mount, is a trash
/// directory, with just what was found; one on another mount is not. Both may be
/// missing where that is in order.
pub proof fn a_whole_trash_opens(
    kind: Kind,
    path: Seq<u8>,
    base: Seq<u8>,
    id: Ident,
    files: Ident,
    info: Ident,
    missing_ok: bool,
)
    ensures
        opened_of(
            kind,
            path,
            base,
            id,
            SubView::Opened(files),
            SubView::Opened(info),
            missing_ok,
        ) == (if files.mnt == id.mnt && info.mnt == id.mnt {
            Ok::<Option<TrashView>, Seq<char>>(
                Some(TrashView { kind, path, base, id, files_id: files }),
            )
        } else {
            Err("its files/ or info/ subdirectory is on another mount"@)
        }),
        opened_of(kind, path, base, id, SubView::Missing, SubView::Missing, missing_ok) == (
        if missing_ok {
            Ok::<Option<TrashView>, Seq<char>>(None)
        } else {
            Err("its files/ subdirectory is missing"@)
        }),
        opened_of(kind, path, base, id, SubView::Missing, SubView::Opened(info), missing_ok)
            == Err::<Option<TrashView>, Seq<char>>("its files/ subdirectory is missing"@),
        opened_of(kind, path, base, id, SubView::Opened(files), SubView::Missing, missing_ok)
            == Err::<Option<TrashView>, Seq<char>>("its info/ subdirectory is missing"@),
        forall|e: Seq<char>, other: SubView|
            #![trigger opened_of(kind, path, base, id, SubView::Failed(e), other, missing_ok)]
            opened_of(kind, path, base, id, SubView::Failed(e), other, missing_ok) == Err::<
                Option<TrashView>,
                Seq<char>,
            >(e),
{
}

// ---------------------------------------------------------------------------
// Finding
// ---------------------------------------------------------------------------

/// The places on one mount where a trash directory may be.
pub struct Search {
    /// The topdir.
    pub base: Vec<u8>,
    /// `$topdir/.Trash`, to be used only if it is a sticky directory.
    pub admin: Vec<u8>,
    /// `$topdir/.Trash/$uid`
    pub admin_uid: Vec<u8>,
    /// `$topdir/.Trash-$uid`
    pub user: Vec<u8>,
}

/// What a `Search` holds.
#[verifier::ext_equal]
pub struct SearchView {
    pub base: Seq<u8>,
    pub admin: Seq<u8>,
    pub admin_uid: Seq<u8>,
    pub user: Seq<u8>,
}

impl View for Search {
    type V = SearchView;

    open spec fn view(&self) -> SearchView {
        SearchView {
            base: self.base@,
            admin: self.admin@,
            admin_uid: self.admin_uid@,
            user: self.user@,
        }
    }
}

/// The places below a topdir.
pub open spec fn places_of(point: Seq<u8>, uid: u32) -> SearchView {
    let admin = joined(point, lit(".Trash"));
    SearchView {
        base: point,
        admin,
        admin_uid: joined(admin, encode_utf8(decimal(uid as nat))),
        user: joined(point, encode_utf8(".Trash-"@ + decimal(uid as nat))),
    }
}

/// The places to look at, mount by mount; a lookup in an `autofs` mount would
/// start an automount.
pub open spec fn searches(ms: Seq<MountView>, uid: u32) -> Seq<SearchView>
    decreases ms.len(),
{
    if ms.len() == 0 {
        Seq::empty()
    } else {
        let front = searches(ms.drop_last(), uid);
        if ms.last().fstype == lit("autofs") {
            front
        } else {
            front.push(places_of(ms.last().point, uid))
        }
    }
}

/// What a list of places holds.
pub open spec fn search_views(v: Seq<Search>) -> Seq<SearchView> {
    Seq::new(v.len(), |i: int| v[i]@)
}

/// The places below a topdir where a trash directory may be.
pub fn places(point: &[u8], uid: u32) -> (s: Search)
    ensures
        s@ == places_of(point@, uid),
{
    let n = number(uid as u64);
    let admin = join(point, of(".Trash").as_slice());
    let admin_uid = join(admin.as_slice(), n.as_str().as_bytes());
    let mut u = String::from_str(".Trash-");
    u.append(n.as_str());
    let user = join(point, u.as_str().as_bytes());
    Search { base: copy(point), admin, admin_uid, user }
}

/// The places to look for trash directories besides the home trash.
pub fn discover(ms: &Mounts, uid: u32) -> (out: Vec<Search>)
    ensures
        search_views(out@) == searches(ms@, uid),
{
    let autofs = of("autofs");
    let mut out: Vec<Search> = Vec::new();
    let mut i: usize = 0;
    assert(search_views(out@) =~= searches(ms@.take(0), uid));
    while i < ms.0.len()
        invariant
            i <= ms.0.len(),
            autofs@ == lit("autofs"),
            search_views(out@) =~= searches(ms@.take(i as int), uid),
        decreases ms.0.len() - i,
    {
        let m = &ms.0[i];
        assert(ms@.take(i + 1).drop_last() =~= ms@.take(i as int));
        assert(ms@.take(i + 1).last() == m@);
        if !same(m.fstype.as_slice(), autofs.as_slice()) {
            let s = places(m.point.as_slice(), uid);
            let ghost before = search_views(out@);
            out.push(s);
            assert(search_views(out@) =~= before.push(s@));
        }
        i = i + 1;
    }
    assert(ms@.take(ms@.len() as int) =~= ms@);
    out
}

/// Every mount is searched but an automount point, in the order of the table:
/// each adds its two places behind those before it.
pub proof fn every_mount_is_searched(ms: Seq<MountView>, m: MountView, uid: u32)
    ensures
        searches(Seq::<MountView>::empty(), uid).len() == 0,
        searches(ms.push(m), uid) == (if m.fstype == lit("autofs") {
            searches(ms, uid)
        } else {
            searches(ms, uid).push(
                SearchView {
                    base: m.point,
                    admin: joined(m.point, lit(".Trash")),
                    admin_uid: joined(
                        joined(m.point, lit(".Trash")),
                        encode_utf8(decimal(uid as nat)),
                    ),
                    user: joined(m.point, encode_utf8(".Trash-"@ + decimal(uid as nat))),
                },
            )
        }),
{
    assert(ms.push(m).drop_last() =~= ms);
}

/// Both places on a mount lie directly below its point: `.Trash` with the user's
/// number in it, and `.Trash-` with the user's number behind it.
pub proof fn the_places_lie_below_the_point(point: Seq<u8>, uid: u32)
    requires
        point.len() > 0,
    ensures
        ({
            let s = places_of(point, uid);
            let n = encode_utf8(decimal(uid as nat));
            &&& s.base == point
            &&& comps(s.admin) == comps(point).push(lit(".Trash"))
            &&& comps(s.admin_uid) == comps(point).push(lit(".Trash")).push(n)
            &&& comps(s.user) == comps(point).push(lit(".Trash-") + n)
        }),
{
    let n = encode_utf8(decimal(uid as nat));
    let dir = lit(".Trash");
    reveal_strlit(".Trash");
    reveal_strlit(".Trash-");
    is_ascii_chars_encode_utf8(".Trash"@);
    is_ascii_chars_encode_utf8(".Trash-"@);
    assert(dir.len() == 6 && dir[1] == 0x54);
    assert forall|i: int| 0 <= i < dir.len() implies dir[i] != 0x2f by {
    }
    let s = decimal(uid as nat);
    decimal_is_digits(uid as nat);
    assert(is_ascii_chars(s));
    is_ascii_chars_encode_utf8(s);
    assert forall|i: int| 0 <= i < n.len() implies n[i] != 0x2f && n[i] != 0x2e by {
        assert('0' <= s[i] <= '9');
    }
    a_name_is_one_component_more(point, dir);
    let admin = joined(point, dir);
    a_name_is_one_component_more(admin, n);
    encoding_is_piecewise(".Trash-"@, s);
    let u = lit(".Trash-") + n;
    assert(u[1] == 0x54);
    assert forall|i: int| 0 <= i < u.len() implies u[i] != 0x2f by {
        if i < 7 {
            assert(u[i] == lit(".Trash-")[i]);
        } else {
            assert(u[i] == n[i - 7]);
        }
    }
    a_name_is_one_component_more(point, u);
}

/// Whether `$topdir/.Trash` is searched, by what is there: only a sticky directory
/// may be shared.
pub fn is_shared(admin: Option<Meta>) -> (r: bool)
    ensures
        r == (admin matches Some(m) && m.dir() && m.stuck()),
{
    match admin {
        Some(m) => m.is_dir() && m.sticky(),
        None => false,
    }
}

/// Whether a trash directory is on the list already, by whatever path.
pub open spec fn known(ts: Seq<TrashView>, id: Ident) -> bool {
    exists|i: int| 0 <= i < ts.len() && one_file((#[trigger] ts[i]).id, id)
}

/// The list of trash directories after one more was looked for.
pub open spec fn found(
    ts: Seq<TrashView>,
    r: Result<Option<TrashView>, Seq<char>>,
) -> Seq<TrashView> {
    match r {
        Ok(Some(t)) => if known(ts, t.id) {
            ts
        } else {
            ts.push(t)
        },
        _ => ts,
    }
}

/// The warning about a place where opening failed.
pub open spec fn skip_warning(path: Seq<u8>, e: Seq<char>) -> Seq<char> {
    "skipping "@ + escaped(path) + ": "@ + e
}

/// What a list of texts holds.
pub open spec fn texts(v: Seq<String>) -> Seq<Seq<char>> {
    Seq::new(v.len(), |i: int| v[i]@)
}

/// A list of texts holds each in its place, and a trash that is skipped is named with what is
/// wrong with it.
pub proof fn a_skipped_trash_is_named(v: Seq<String>, path: Seq<u8>, e: Seq<char>)
    ensures
        texts(v).len() == v.len(),
        forall|i: int| 0 <= i < v.len() ==> #[trigger] texts(v)[i] == v[i]@,
        skip_warning(path, e) == "skipping "@ + escaped(path) + ": "@ + e,
{
}

fn is_known(ts: &Vec<Trash>, id: Ident) -> (r: bool)
    ensures
        r == known(trash_views(ts@), id),
{
    let ghost v = trash_views(ts@);
    let mut i: usize = 0;
    while i < ts.len()
        invariant
            i <= ts.len(),
            v == trash_views(ts@),
            forall|k: int| 0 <= k < i ==> !one_file((#[trigger] v[k]).id, id),
        decreases ts.len() - i,
    {
        assert(v[i as int] == ts@[i as int]@);
        if ts[i].id.same_file(&id) {
            return true;
        }
        i = i + 1;
    }
    false
}

/// Adds the trash directory found at `path` unless it is known; says so where
/// it was skipped with an error.
pub fn push_new(
    out: &mut Vec<Trash>,
    r: Result<Option<Trash>, String>,
    path: &[u8],
    warn: &mut Vec<String>,
)
    ensures
        trash_views(final(out)@) == found(trash_views(old(out)@), opened_view(r)),
        texts(final(warn)@) == (match r {
            Err(e) => texts(old(warn)@).push(skip_warning(path@, e@)),
            _ => texts(old(warn)@),
        }),
{
    match r {
        Ok(Some(t)) => {
            let ghost was = trash_views(out@);
            if is_known(out, t.id) {
                return;
            }
            out.push(t);
            assert(trash_views(out@) =~= was.push(t@));
        },
        Ok(None) => {},
        Err(e) => {
            let mut s = String::from_str("skipping ");
            s.append(escape(path).as_str());
            s.append(": ");
            s.append(e.as_str());
            let ghost was = texts(warn@);
            warn.push(s);
            assert(texts(warn@) =~= was.push(s@));
        },
    }
}

/// A trash directory that is there and could not be opened, such as one without
/// its `info/`. It is still the trash of what lies in it.
pub struct Skipped {
    pub path: Vec<u8>,
    pub id: Ident,
}

/// What a list of skipped directories holds.
pub open spec fn skipped_views(v: Seq<Skipped>) -> Seq<(Seq<u8>, Ident)> {
    Seq::new(v.len(), |i: int| (v[i].path@, v[i].id))
}

/// Keeps in mind what is at `path`, where it was skipped with an error; `id` is
/// what it is, if that could be learned.
pub fn push_skipped(
    out: &mut Vec<Skipped>,
    r: &Result<Option<Trash>, String>,
    path: &[u8],
    id: Option<Ident>,
)
    ensures
        skipped_views(final(out)@) == (match (*r, id) {
            (Err(_), Some(i)) => skipped_views(old(out)@).push((path@, i)),
            _ => skipped_views(old(out)@),
        }),
{
    if r.is_err() {
        if let Some(i) = id {
            let ghost was = skipped_views(out@);
            out.push(Skipped { path: copy(path), id: i });
            assert(skipped_views(out@) =~= was.push((path@, i)));
        }
    }
}

/// No trash directory is on the list twice.
pub open spec fn distinct(ts: Seq<TrashView>) -> bool {
    forall|i: int, j: int|
        #![trigger ts[i], ts[j]]
        0 <= i < j < ts.len() ==> !one_file(ts[i].id, ts[j].id)
}

/// However many paths lead to a trash directory, it is on the list once, under
/// the first of them.
pub proof fn found_keeps_distinct(ts: Seq<TrashView>, r: Result<Option<TrashView>, Seq<char>>)
    requires
        distinct(ts),
    ensures
        distinct(found(ts, r)),
        found(ts, r).len() >= ts.len(),
        found(ts, r).take(ts.len() as int) == ts,
{
    let after = found(ts, r);
    assert(after.take(ts.len() as int) =~= ts);
    assert forall|i: int, j: int|
        #![trigger after[i], after[j]]
        0 <= i < j < after.len() implies !one_file(after[i].id, after[j].id) by {
        assert(after[i] == ts[i]);
        if j < ts.len() {
            assert(after[j] == ts[j]);
        }
    }
}

/// A trash directory that is not on the list is added behind the others; one
/// that is, by whatever path, is not, and neither is what was not found.
pub proof fn a_new_trash_is_added(ts: Seq<TrashView>, t: TrashView, e: Seq<char>)
    ensures
        (forall|i: int|
            0 <= i < ts.len() ==> (#[trigger] ts[i]).id.dev != t.id.dev || ts[i].id.ino != t.id.ino)
            ==> found(ts, Ok(Some(t))) == ts.push(t),
        (exists|i: int|
            0 <= i < ts.len() && (#[trigger] ts[i]).id.dev == t.id.dev && ts[i].id.ino == t.id.ino)
            ==> found(ts, Ok(Some(t))) == ts,
        found(ts, Ok(None)) == ts,
        found(ts, Err(e)) == ts,
{
}

/// No entry can have an empty name, `.`, `..` or a name with a slash in it, and
/// any other name it can have. Its info file has that name with `.trashinfo`
/// behind it.
pub proof fn a_name_without_a_slash_is_in_order(name: Seq<u8>)
    ensures
        malformed_name(name) <==> name.len() == 0 || (name.len() == 1 && name[0] == 0x2e) || (
        name.len() == 2 && name[0] == 0x2e && name[1] == 0x2e) || exists|i: int|
            0 <= i < name.len() && name[i] == 0x2f,
        info_name_of(name) == name + lit(".trashinfo"),
{
    if name.len() == 1 && name[0] == 0x2e {
        assert(name =~= seq![0x2eu8]);
    }
    if name.len() == 2 && name[0] == 0x2e && name[1] == 0x2e {
        assert(name =~= seq![0x2eu8, 0x2eu8]);
    }
}

} // verus!
