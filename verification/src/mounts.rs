//! `/proc/self/mountinfo`, and paths as seen through mounts of one filesystem.
use vstd::prelude::*;
use vstd::slice::slice_subrange;
use vstd::std_specs::iter::IteratorSpec;
use vstd::string::*;

use crate::bytes::{copy, find, join_with, lit, of, same, split, split_on, views};
use crate::paths::{
    begins_with, beyond, components, comps, comps_are_well_formed, continue_with, continued,
    join_then_split, render, rendered, rendered_keeps_comps, root_comp, dot_comp, same_path, under,
    well_formed, is_name,
};
use crate::text::{decimal, decimal_is_digits, escape, escaped};

verus! {

/// A filesystem: the major and minor number that mountinfo gives it.
#[derive(Clone, Copy, PartialEq, Eq, Hash, Debug, Structural)]
pub struct FsId(pub u32, pub u32);

/// One mount.
#[derive(Debug)]
pub struct Mount {
    pub id: u64,
    pub parent: u64,
    pub fs: FsId,
    /// The mount's root inside its filesystem.
    pub root: Vec<u8>,
    /// The mount point in this namespace.
    pub point: Vec<u8>,
    /// The mount is read-only, whatever the filesystem under it is.
    pub ro: bool,
    pub fstype: Vec<u8>,
    /// Where the mount point lies: the parent's filesystem and the path in it.
    pub under: Option<(FsId, Vec<u8>)>,
}

/// What a `Mount` holds.
#[verifier::ext_equal]
pub struct MountView {
    pub id: u64,
    pub parent: u64,
    pub fs: FsId,
    pub root: Seq<u8>,
    pub point: Seq<u8>,
    pub ro: bool,
    pub fstype: Seq<u8>,
    pub under: Option<(FsId, Seq<u8>)>,
}

/// A place in a filesystem, as contents.
pub open spec fn place_view(p: Option<(FsId, Vec<u8>)>) -> Option<(FsId, Seq<u8>)> {
    match p {
        Some(x) => Some((x.0, x.1@)),
        None => None,
    }
}

impl View for Mount {
    type V = MountView;

    open spec fn view(&self) -> MountView {
        MountView {
            id: self.id,
            parent: self.parent,
            fs: self.fs,
            root: self.root@,
            point: self.point@,
            ro: self.ro,
            fstype: self.fstype@,
            under: place_view(self.under),
        }
    }
}

/// The mount table.
#[derive(Debug)]
pub struct Mounts(pub Vec<Mount>);

/// What a list of mounts holds.
pub open spec fn mount_views(v: Seq<Mount>) -> Seq<MountView> {
    Seq::new(v.len(), |i: int| v[i]@)
}

impl View for Mounts {
    type V = Seq<MountView>;

    open spec fn view(&self) -> Seq<MountView> {
        mount_views(self.0@)
    }
}

// ---------------------------------------------------------------------------
// Paths through mounts
// ---------------------------------------------------------------------------

/// `path`, which lies under mount `m`, as a path inside `m`'s filesystem.
pub open spec fn inside_of(m: MountView, path: Seq<u8>) -> Option<Seq<u8>> {
    if under(comps(path), comps(m.point)) {
        Some(rendered(continued(comps(m.root), comps(path).skip(comps(m.point).len() as int))))
    } else {
        None
    }
}

/// `path`, which lies under mount `own`, as seen through `via`.
pub open spec fn through_of(own: MountView, via: MountView, path: Seq<u8>) -> Option<Seq<u8>> {
    match inside_of(own, path) {
        None => None,
        Some(p) => if under(comps(p), comps(via.root)) {
            Some(rendered(continued(comps(via.point), comps(p).skip(comps(via.root).len() as int))))
        } else {
            None
        },
    }
}

/// `path` (under mount `m`) as a path inside m's filesystem.
pub fn inside(m: &Mount, path: &[u8]) -> (r: Option<Vec<u8>>)
    ensures
        match r {
            Some(p) => inside_of(m@, path@) == Some(p@),
            None => inside_of(m@, path@) is None,
        },
{
    match beyond(path, m.point.as_slice()) {
        None => None,
        Some(rest) => {
            let all = continue_with(components(m.root.as_slice()), rest);
            Some(render(all.as_slice()))
        },
    }
}

/// `path` (under mount `own`) as seen through `via`, another mount of the same
/// filesystem, if `via` shows it.
pub fn through(own: &Mount, via: &Mount, path: &[u8]) -> (r: Option<Vec<u8>>)
    ensures
        match r {
            Some(p) => through_of(own@, via@, path@) == Some(p@),
            None => through_of(own@, via@, path@) is None,
        },
{
    match inside(own, path) {
        None => None,
        Some(p) => match beyond(p.as_slice(), via.root.as_slice()) {
            None => None,
            Some(rest) => {
                let all = continue_with(components(via.point.as_slice()), rest);
                Some(render(all.as_slice()))
            },
        },
    }
}

/// A path seen through its own mount is the same path.
pub proof fn through_itself(m: MountView, path: Seq<u8>)
    requires
        under(comps(path), comps(m.point)),
        comps(m.root).len() > 0,
        comps(m.point).len() > 0,
    ensures
        through_of(m, m, path) == Some(rendered(comps(path))),
{
    let c = comps(path);
    let point = comps(m.point);
    let root = comps(m.root);
    let rest = c.skip(point.len() as int);
    comps_are_well_formed(path);
    comps_are_well_formed(m.root);
    comps_are_well_formed(m.point);
    assert forall|i: int| 0 <= i < rest.len() implies is_name(#[trigger] rest[i]) by {
        assert(rest[i] == c[point.len() + i]);
    }
    if rest.len() > 0 {
        assert(is_name(rest[0]));
        assert(root_comp().contains(root_comp()[0]));
    }
    let all = continued(root, rest);
    assert(all =~= root + rest);
    assert(well_formed(all)) by {
        assert forall|i: int| 0 <= i < all.len() implies (is_name(#[trigger] all[i]) || (i == 0 && (
        all[i] == root_comp() || all[i] == dot_comp()))) by {
            if i < root.len() {
                assert(all[i] == root[i]);
            } else {
                assert(all[i] == rest[i - root.len()]);
            }
        }
    }
    rendered_keeps_comps(all);
    assert(all.take(root.len() as int) =~= root);
    assert(all.skip(root.len() as int) =~= rest);
    assert(continued(point, rest) =~= c) by {
        assert(c.take(point.len() as int) + rest =~= c);
    }
}

/// A path under a mount is, inside the mount's filesystem, the mount's root and
/// what follows the mount point. Any other path is not there.
pub proof fn inside_starts_at_the_root(m: MountView, path: Seq<u8>)
    requires
        m.root.len() > 0,
        m.point.len() > 0,
        comps(m.root).len() > 0,
        comps(m.point).len() > 0,
    ensures
        (exists|rest: Seq<Seq<u8>>| comps(path) == #[trigger] (comps(m.point) + rest)) <==> inside_of(
            m,
            path,
        ) is Some,
        forall|rest: Seq<Seq<u8>>|
            comps(path) == #[trigger] (comps(m.point) + rest) ==> comps(inside_of(m, path)->0)
                == comps(m.root) + rest,
{
    let c = comps(path);
    let point = comps(m.point);
    let root = comps(m.root);
    if under(c, point) {
        let rest = c.skip(point.len() as int);
        assert(c =~= point + rest);
        assert(well_formed(root + rest)) by {
            continues_well(m.root, m.point, path);
        }
        rendered_keeps_comps(root + rest);
        assert(continued(root, rest) =~= root + rest) by {
            continues_well(m.root, m.point, path);
        }
        assert forall|other: Seq<Seq<u8>>| c == #[trigger] (point + other) implies comps(
            inside_of(m, path)->0,
        ) == root + other by {
            assert(rest =~= other);
        }
    }
    assert forall|rest: Seq<Seq<u8>>| c == #[trigger] (point + rest) implies under(c, point) by {
        assert((point + rest).take(point.len() as int) =~= point);
    }
}

/// What follows one path follows another just as well.
proof fn continues_well(front: Seq<u8>, base: Seq<u8>, path: Seq<u8>)
    requires
        comps(front).len() > 0,
        comps(base).len() > 0,
        under(comps(path), comps(base)),
    ensures
        ({
            let rest = comps(path).skip(comps(base).len() as int);
            well_formed(comps(front) + rest) && continued(comps(front), rest) == comps(front) + rest
        }),
{
    let c = comps(path);
    let b = comps(base);
    let f = comps(front);
    let rest = c.skip(b.len() as int);
    comps_are_well_formed(path);
    comps_are_well_formed(front);
    assert forall|i: int| 0 <= i < rest.len() implies is_name(#[trigger] rest[i]) by {
        assert(rest[i] == c[b.len() + i]);
    }
    if rest.len() > 0 {
        assert(is_name(rest[0]));
        assert(root_comp().contains(root_comp()[0]));
    }
    let all = f + rest;
    assert(continued(f, rest) =~= all);
    assert forall|i: int| 0 <= i < all.len() implies (is_name(#[trigger] all[i]) || (i == 0 && (
    all[i] == root_comp() || all[i] == dot_comp()))) by {
        if i < f.len() {
            assert(all[i] == f[i]);
        } else {
            assert(all[i] == rest[i - f.len()]);
        }
    }
}

/// A path seen through another mount is the same place inside the filesystem,
/// and a mount shows just those places that lie at its root or below it.
pub proof fn another_mount_shows_the_same_place(own: MountView, via: MountView, path: Seq<u8>)
    requires
        comps(own.root).len() > 0,
        comps(own.point).len() > 0,
        comps(via.root).len() > 0,
        comps(via.point).len() > 0,
    ensures
        through_of(own, via, path) is Some <==> inside_of(own, path) is Some && under(
            comps(inside_of(own, path)->0),
            comps(via.root),
        ),
        through_of(own, via, path) matches Some(q) ==> under(comps(q), comps(via.point))
            && inside_of(via, q) is Some && comps(inside_of(via, q)->0) == comps(
            inside_of(own, path)->0,
        ),
{
    if let Some(q) = through_of(own, via, path) {
        let p = inside_of(own, path)->0;
        let rest = comps(p).skip(comps(via.root).len() as int);
        continues_well(via.point, via.root, p);
        rendered_keeps_comps(comps(via.point) + rest);
        let qc = comps(via.point) + rest;
        assert(comps(q) == qc);
        assert(qc.take(comps(via.point).len() as int) =~= comps(via.point));
        assert(qc.skip(comps(via.point).len() as int) =~= rest);
        continues_well(via.root, via.point, q);
        rendered_keeps_comps(comps(via.root) + rest);
        assert(comps(via.root) + rest =~= comps(p));
    }
}

// ---------------------------------------------------------------------------
// Numbers and escapes in mountinfo
// ---------------------------------------------------------------------------

/// Only decimal digits.
pub open spec fn all_digits(s: Seq<u8>) -> bool {
    forall|i: int| 0 <= i < s.len() ==> 0x30 <= #[trigger] s[i] <= 0x39
}

/// The number that digits write.
pub open spec fn digits_value(s: Seq<u8>) -> nat
    decreases s.len(),
{
    if s.len() == 0 {
        0
    } else {
        10 * digits_value(s.drop_last()) + (s.last() - 0x30) as nat
    }
}

/// A whole number of at most `max`: digits, after a plus sign or not.
pub open spec fn number_in(s: Seq<u8>, max: nat) -> Option<nat> {
    let t = if s.len() > 0 && s[0] == 0x2b {
        s.skip(1)
    } else {
        s
    };
    if t.len() > 0 && all_digits(t) && digits_value(t) <= max {
        Some(digits_value(t))
    } else {
        None
    }
}

proof fn digits_value_grows(s: Seq<u8>, n: int)
    requires
        0 <= n <= s.len(),
        all_digits(s),
    ensures
        digits_value(s.take(n)) <= digits_value(s),
    decreases s.len() - n,
{
    if n == s.len() {
        assert(s.take(n) =~= s);
    } else {
        assert(s.take(n + 1).drop_last() =~= s.take(n));
        assert(s.take(n + 1).last() == s[n]);
        digits_value_grows(s, n + 1);
    }
}

fn bounded(s: &[u8], max: u64) -> (r: Option<u64>)
    ensures
        match r {
            Some(v) => number_in(s@, max as nat) == Some(v as nat),
            None => number_in(s@, max as nat) is None,
        },
{
    let from: usize = if s.len() > 0 && s[0] == 0x2b {
        1
    } else {
        0
    };
    let ghost t = if s@.len() > 0 && s@[0] == 0x2b {
        s@.skip(1)
    } else {
        s@
    };
    assert(t =~= s@.skip(from as int));
    if from == s.len() {
        return None;
    }
    let mut i: usize = from;
    let mut v: u64 = 0;
    while i < s.len()
        invariant
            from <= i <= s.len(),
            t == s@.skip(from as int),
            t == (if s@.len() > 0 && s@[0] == 0x2b {
                s@.skip(1)
            } else {
                s@
            }),
            forall|k: int| 0 <= k < i - from ==> 0x30 <= #[trigger] t[k] <= 0x39,
            v == digits_value(t.take(i - from)),
            v <= max,
        decreases s.len() - i,
    {
        let d: u8 = s[i];
        assert(t[i - from] == d);
        if d < 0x30 || d > 0x39 {
            return None;
        }
        assert(t.take(i - from + 1).drop_last() =~= t.take(i - from));
        let ghost next = digits_value(t.take(i - from + 1));
        assert(next == 10 * v + (d - 0x30));
        proof {
            if all_digits(t) {
                digits_value_grows(t, i - from + 1);
            }
        }
        match v.checked_mul(10) {
            None => return None,
            Some(w) => match w.checked_add((d - 0x30) as u64) {
                None => return None,
                Some(x) => {
                    if x > max {
                        return None;
                    }
                    v = x;
                },
            },
        }
        i = i + 1;
    }
    assert(t.take(t.len() as int) =~= t);
    Some(v)
}

/// A number of 64 bits.
pub fn num(s: &[u8]) -> (r: Option<u64>)
    ensures
        match r {
            Some(v) => number_in(s@, u64::MAX as nat) == Some(v as nat),
            None => number_in(s@, u64::MAX as nat) is None,
        },
{
    bounded(s, u64::MAX)
}

fn num32(s: &[u8]) -> (r: Option<u32>)
    ensures
        match r {
            Some(v) => number_in(s@, u32::MAX as nat) == Some(v as nat),
            None => number_in(s@, u32::MAX as nat) is None,
        },
{
    match bounded(s, u32::MAX as u64) {
        Some(v) => Some(v as u32),
        None => None,
    }
}

/// An octal digit.
pub open spec fn octal(b: u8) -> bool {
    0x30 <= b <= 0x37
}

/// How the kernel writes a name: space, tab, newline and backslash as `\NNN`, in
/// octal.
pub open spec fn kernel_escaped(s: Seq<u8>) -> Seq<u8>
    decreases s.len(),
{
    if s.len() == 0 {
        Seq::empty()
    } else {
        let b = s[0];
        let one = if b == 0x20 || b == 0x09 || b == 0x0a || b == 0x5c {
            seq![0x5cu8, (0x30 + b / 64) as u8, (0x30 + b / 8 % 8) as u8, (0x30 + b % 8) as u8]
        } else {
            seq![b]
        };
        one + kernel_escaped(s.skip(1))
    }
}

/// A name out of the kernel's writing: `\NNN` is the byte with that number.
pub open spec fn unescaped(s: Seq<u8>) -> Seq<u8>
    decreases s.len(),
{
    if s.len() == 0 {
        Seq::empty()
    } else if s.len() >= 4 && s[0] == 0x5c && octal(s[1]) && octal(s[2]) && octal(s[3]) {
        seq![((64 * (s[1] - 0x30) + 8 * (s[2] - 0x30) + (s[3] - 0x30)) % 256) as u8] + unescaped(
            s.skip(4),
        )
    } else {
        seq![s[0]] + unescaped(s.skip(1))
    }
}

/// A backslash with three octal digits behind it stands for the byte that they name. Every other
/// byte stands for itself, and a backslash does so wherever those digits are not behind it.
pub proof fn only_an_octal_escape_is_undone(b: u8, c: u8, d: u8, v: u8, rest: Seq<u8>)
    ensures
        unescaped(Seq::<u8>::empty()) == Seq::<u8>::empty(),
        0x30 <= b <= 0x37 && 0x30 <= c <= 0x37 && 0x30 <= d <= 0x37 && v == (64 * (b - 0x30) + 8 * (
        c - 0x30) + (d - 0x30)) % 256 ==> unescaped(seq![0x5cu8, b, c, d] + rest) == seq![v]
            + unescaped(rest),
        b != 0x5c ==> unescaped(seq![b] + rest) == seq![b] + unescaped(rest),
        rest.len() < 3 || !(0x30 <= rest[0] <= 0x37 && 0x30 <= rest[1] <= 0x37 && 0x30 <= rest[2]
            <= 0x37) ==> unescaped(seq![0x5cu8] + rest) == seq![0x5cu8] + unescaped(rest),
{
    assert((seq![0x5cu8, b, c, d] + rest).skip(4) =~= rest);
    assert((seq![b] + rest).skip(1) =~= rest);
    let e = seq![0x5cu8] + rest;
    assert(e.skip(1) =~= rest);
    if rest.len() >= 3 {
        assert(e[1] == rest[0] && e[2] == rest[1] && e[3] == rest[2]);
    }
}

/// Whatever a name holds, it comes back from the kernel's writing of it.
pub proof fn unescape_undoes_the_kernel(s: Seq<u8>)
    ensures
        unescaped(kernel_escaped(s)) == s,
    decreases s.len(),
{
    if s.len() > 0 {
        let b = s[0];
        let rest = kernel_escaped(s.skip(1));
        let e = kernel_escaped(s);
        unescape_undoes_the_kernel(s.skip(1));
        if b == 0x20 || b == 0x09 || b == 0x0a || b == 0x5c {
            assert(e.skip(4) =~= rest);
            assert(e[0] == 0x5c && octal(e[1]) && octal(e[2]) && octal(e[3]));
        } else {
            assert(e.skip(1) =~= rest);
            assert(e[0] == b);
        }
        assert(unescaped(e) =~= seq![b] + s.skip(1));
        assert(seq![b] + s.skip(1) =~= s);
    }
}

/// Undoes the kernel's octal escapes. A backslash without three octal digits
/// stays.
pub fn unescape(s: &[u8]) -> (out: Vec<u8>)
    ensures
        out@ == unescaped(s@),
{
    let mut out: Vec<u8> = Vec::new();
    let mut i: usize = 0;
    assert(s@.skip(0) =~= s@);
    while i < s.len()
        invariant
            i <= s.len(),
            out@ + unescaped(s@.skip(i as int)) =~= unescaped(s@),
        decreases s.len() - i,
    {
        let ghost rest = s@.skip(i as int);
        if s.len() - i >= 4 && s[i] == 0x5c && (0x30 <= s[i + 1] && s[i + 1] <= 0x37) && (0x30 <= s[i
            + 2] && s[i + 2] <= 0x37) && (0x30 <= s[i + 3] && s[i + 3] <= 0x37) {
            let n: u16 = 64 * ((s[i + 1] - 0x30) as u16) + 8 * ((s[i + 2] - 0x30) as u16) + ((s[i
                + 3] - 0x30) as u16);
            out.push((n % 256) as u8);
            assert(rest.skip(4) =~= s@.skip(i + 4));
            i = i + 4;
        } else {
            out.push(s[i]);
            assert(rest.skip(1) =~= s@.skip(i + 1));
            i = i + 1;
        }
    }
    out
}

// ---------------------------------------------------------------------------
// Lines
// ---------------------------------------------------------------------------

/// The place of the first field that is `want`.
pub open spec fn first_at(fields: Seq<Seq<u8>>, want: Seq<u8>) -> Option<int>
    decreases fields.len(),
{
    if fields.len() == 0 {
        None
    } else {
        match first_at(fields.drop_last(), want) {
            Some(i) => Some(i),
            None => if fields.last() == want {
                Some(fields.len() - 1)
            } else {
                None
            },
        }
    }
}

/// `MAJOR:MINOR`.
pub open spec fn fs_in(s: Seq<u8>) -> Option<FsId> {
    if !s.contains(0x3a) {
        None
    } else {
        let at = s.index_of_first(0x3a)->0;
        match (
            number_in(s.take(at), u32::MAX as nat),
            number_in(s.skip(at + 1), u32::MAX as nat),
        ) {
            (Some(a), Some(b)) => Some(FsId(a as u32, b as u32)),
            _ => None,
        }
    }
}

/// A line `id parent maj:min root point opts [optional...] - fstype ...`.
pub open spec fn line_of(l: Seq<u8>) -> Option<MountView> {
    let f = split_on(l, 0x20);
    match first_at(f, lit("-")) {
        None => None,
        Some(sep) => if sep < 6 || sep + 1 >= f.len() {
            None
        } else {
            match (
                number_in(f[0], u64::MAX as nat),
                number_in(f[1], u64::MAX as nat),
                fs_in(f[2]),
            ) {
                (Some(id), Some(parent), Some(fs)) => Some(
                    MountView {
                        id: id as u64,
                        parent: parent as u64,
                        fs,
                        root: unescaped(f[3]),
                        point: unescaped(f[4]),
                        ro: split_on(f[5], 0x2c).contains(lit("ro")),
                        fstype: unescaped(f[sep + 1]),
                        under: None,
                    },
                ),
                _ => None,
            }
        },
    }
}

/// The first `-` among fields is found where it stands.
proof fn first_at_is_first(f: Seq<Seq<u8>>, want: Seq<u8>, k: int)
    requires
        0 <= k < f.len(),
        f[k] == want,
        forall|i: int| 0 <= i < k ==> #[trigger] f[i] != want,
    ensures
        first_at(f, want) == Some(k),
    decreases f.len(),
{
    if k < f.len() - 1 {
        first_at_is_first(f.drop_last(), want, k);
    } else {
        first_at_is_none(f.drop_last(), want);
    }
}

proof fn first_at_is_none(f: Seq<Seq<u8>>, want: Seq<u8>)
    requires
        forall|i: int| 0 <= i < f.len() ==> #[trigger] f[i] != want,
    ensures
        first_at(f, want) is None,
    decreases f.len(),
{
    if f.len() > 0 {
        assert forall|i: int| 0 <= i < f.drop_last().len() implies #[trigger] f.drop_last()[i]
            != want by {
            assert(f[i] != want);
        }
        first_at_is_none(f.drop_last(), want);
    }
}

/// The decimal text of a number, as bytes.
pub open spec fn decimal_bytes(n: nat) -> Seq<u8> {
    Seq::new(decimal(n).len(), |i: int| decimal(n)[i] as u8)
}

/// A number is read from its decimal text, up to the limit.
pub proof fn decimal_text_is_read(n: nat, max: nat)
    ensures
        number_in(decimal_bytes(n), max) == (if n <= max {
            Some(n)
        } else {
            None
        }),
{
    decimal_value(n);
    decimal_is_digits(n);
    let b = decimal_bytes(n);
    assert(b[0] == decimal(n)[0] as u8);
    assert forall|i: int| 0 <= i < b.len() implies 0x30 <= #[trigger] b[i] <= 0x39 by {
        assert('0' <= decimal(n)[i] <= '9');
    }
    assert(b[0] != 0x2b);
}

proof fn decimal_value(n: nat)
    ensures
        digits_value(decimal_bytes(n)) == n,
    decreases n,
{
    let b = decimal_bytes(n);
    if n < 10 {
        assert(b.drop_last() =~= Seq::<u8>::empty());
        reveal_with_fuel(digits_value, 2);
        assert(b.last() == 0x30 + n);
    } else {
        decimal_value(n / 10);
        assert(b.drop_last() =~= decimal_bytes(n / 10));
        assert(b.last() == 0x30 + n % 10);
    }
}

/// A line that the kernel writes is read with all that it says: ids, device,
/// root and mount point with their escapes undone, whether `ro` is among the
/// options, and the type behind the dash, whatever optional fields stand between.
pub proof fn a_line_is_read_as_written(
    f: Seq<Seq<u8>>,
    sep: int,
    id: u64,
    parent: u64,
    major: u32,
    minor: u32,
    root: Seq<u8>,
    point: Seq<u8>,
    fstype: Seq<u8>,
)
    requires
        6 <= sep,
        sep + 1 < f.len(),
        forall|i: int| 0 <= i < f.len() ==> !(#[trigger] f[i]).contains(0x20),
        forall|i: int| 0 <= i < sep ==> #[trigger] f[i] != lit("-"),
        f[sep] == lit("-"),
        f[0] == decimal_bytes(id as nat),
        f[1] == decimal_bytes(parent as nat),
        f[2] == decimal_bytes(major as nat) + seq![0x3au8] + decimal_bytes(minor as nat),
        f[3] == kernel_escaped(root),
        f[4] == kernel_escaped(point),
        f[sep + 1] == kernel_escaped(fstype),
    ensures
        line_of(join_with(f, 0x20)) matches Some(m) && m.id == id && m.parent == parent && m.fs
            == FsId(major, minor) && m.root == root && m.point == point && m.fstype == fstype && (
        m.ro <==> split_on(f[5], 0x2c).contains(lit("ro"))) && m.under is None,
{
    join_then_split(f, 0x20);
    first_at_is_first(f, lit("-"), sep);
    decimal_text_is_read(id as nat, u64::MAX as nat);
    decimal_text_is_read(parent as nat, u64::MAX as nat);
    decimal_text_is_read(major as nat, u32::MAX as nat);
    decimal_text_is_read(minor as nat, u32::MAX as nat);
    unescape_undoes_the_kernel(root);
    unescape_undoes_the_kernel(point);
    unescape_undoes_the_kernel(fstype);
    let a = decimal_bytes(major as nat);
    let b = decimal_bytes(minor as nat);
    let d = f[2];
    assert(d[a.len() as int] == 0x3a);
    assert(d.contains(0x3a));
    d.index_of_first_ensures(0x3a);
    let at = d.index_of_first(0x3au8)->0;
    decimal_is_digits(major as nat);
    if at < a.len() {
        assert(d[at] == a[at]);
        assert('0' <= decimal(major as nat)[at] <= '9');
    } else if at > a.len() {
        assert(d.take(at)[a.len() as int] == 0x3a);
    }
    assert(at == a.len());
    assert(d.take(at) =~= a);
    assert(d.skip(at + 1) =~= b);
}

fn position(fields: &Vec<Vec<u8>>, want: &[u8]) -> (r: Option<usize>)
    ensures
        match r {
            Some(i) => i < fields@.len() && first_at(views(fields@), want@) == Some(i as int),
            None => first_at(views(fields@), want@) is None,
        },
{
    let ghost f = views(fields@);
    let mut i: usize = 0;
    while i < fields.len()
        invariant
            i <= fields.len(),
            f == views(fields@),
            first_at(f.take(i as int), want@) is None,
        decreases fields.len() - i,
    {
        assert(f.take(i + 1).drop_last() =~= f.take(i as int));
        if same(fields[i].as_slice(), want) {
            proof {
                first_at_stays(f, i + 1, want@);
            }
            return Some(i);
        }
        i = i + 1;
    }
    assert(f.take(f.len() as int) =~= f);
    None
}

proof fn first_at_stays(f: Seq<Seq<u8>>, n: int, want: Seq<u8>)
    requires
        0 <= n <= f.len(),
        first_at(f.take(n), want) is Some,
    ensures
        first_at(f, want) == first_at(f.take(n), want),
    decreases f.len() - n,
{
    if n == f.len() {
        assert(f.take(n) =~= f);
    } else {
        assert(f.take(n + 1).drop_last() =~= f.take(n));
        first_at_stays(f, n + 1, want);
    }
}

fn parse_fs(s: &[u8]) -> (r: Option<FsId>)
    ensures
        r == fs_in(s@),
{
    match find(s, 0x3a) {
        None => None,
        Some(at) => {
            proof {
                s@.index_of_first_ensures(0x3a);
                let k = s@.index_of_first(0x3au8)->0;
                if k < at {
                    assert(s@.take(at as int)[k] == 0x3a);
                }
                assert(k == at);
            }
            let n: usize = s.len();
            let a = slice_subrange(s, 0, at);
            let b = slice_subrange(s, at + 1, n);
            assert(a@ =~= s@.take(at as int));
            assert(b@ =~= s@.skip(at + 1));
            match (num32(a), num32(b)) {
                (Some(x), Some(y)) => Some(FsId(x, y)),
                _ => None,
            }
        },
    }
}

fn has_option(opts: &[u8]) -> (r: bool)
    ensures
        r == split_on(opts@, 0x2c).contains(lit("ro")),
{
    let all = split(opts, 0x2c);
    let ro = of("ro");
    let mut i: usize = 0;
    while i < all.len()
        invariant
            i <= all.len(),
            ro@ == lit("ro"),
            views(all@) == split_on(opts@, 0x2c),
            forall|k: int| 0 <= k < i ==> #[trigger] views(all@)[k] != lit("ro"),
        decreases all.len() - i,
    {
        if same(all[i].as_slice(), ro.as_slice()) {
            assert(views(all@)[i as int] == lit("ro"));
            return true;
        }
        i = i + 1;
    }
    false
}

/// Reads one line of mountinfo.
pub fn parse_line(l: &[u8]) -> (r: Option<Mount>)
    ensures
        match r {
            Some(m) => line_of(l@) == Some(m@),
            None => line_of(l@) is None,
        },
{
    let f = split(l, 0x20);
    let ghost fs = split_on(l@, 0x20);
    let dash = of("-");
    let sep: usize = match position(&f, dash.as_slice()) {
        None => return None,
        Some(i) => i,
    };
    if sep < 6 || sep + 1 >= f.len() {
        return None;
    }
    assert(forall|k: int| 0 <= k < fs.len() ==> f@[k]@ == #[trigger] fs[k]);
    let id: u64 = match num(f[0].as_slice()) {
        None => return None,
        Some(v) => v,
    };
    let parent: u64 = match num(f[1].as_slice()) {
        None => return None,
        Some(v) => v,
    };
    let id_fs = match parse_fs(f[2].as_slice()) {
        None => return None,
        Some(v) => v,
    };
    let m = Mount {
        id,
        parent,
        fs: id_fs,
        root: unescape(f[3].as_slice()),
        point: unescape(f[4].as_slice()),
        ro: has_option(f[5].as_slice()),
        fstype: unescape(f[sep + 1].as_slice()),
        under: None,
    };
    assert(m@ == line_of(l@)->0);
    Some(m)
}

// ---------------------------------------------------------------------------
// The table
// ---------------------------------------------------------------------------

/// The mounts that the lines describe; lines that do not parse are passed over.
pub open spec fn mounts_in(lines: Seq<Seq<u8>>) -> Seq<MountView>
    decreases lines.len(),
{
    if lines.len() == 0 {
        Seq::empty()
    } else {
        let front = mounts_in(lines.drop_last());
        if lines.last().len() == 0 {
            front
        } else {
            match line_of(lines.last()) {
                Some(m) => front.push(m),
                None => front,
            }
        }
    }
}

/// The last mount with an id.
pub open spec fn last_with(ms: Seq<MountView>, id: u64) -> Option<int>
    decreases ms.len(),
{
    if ms.len() == 0 {
        None
    } else if ms.last().id == id {
        Some(ms.len() - 1)
    } else {
        last_with(ms.drop_last(), id)
    }
}

/// Where `m`'s mount point lies: in its parent's filesystem.
pub open spec fn place_of(ms: Seq<MountView>, m: MountView) -> Option<(FsId, Seq<u8>)> {
    match last_with(ms, m.parent) {
        None => None,
        Some(i) => match inside_of(ms[i], m.point) {
            None => None,
            Some(p) => Some((ms[i].fs, p)),
        },
    }
}

/// Each mount with the place of its mount point filled in.
pub open spec fn placed(ms: Seq<MountView>) -> Seq<MountView> {
    Seq::new(ms.len(), |i: int| MountView { under: place_of(ms, ms[i]), ..ms[i] })
}

/// The first mount with an id.
pub open spec fn first_with(ms: Seq<MountView>, id: u64) -> Option<MountView>
    decreases ms.len(),
{
    if ms.len() == 0 {
        None
    } else if ms[0].id == id {
        Some(ms[0])
    } else {
        first_with(ms.skip(1), id)
    }
}

/// A mount is found by its id: the first that has it, and none just where none
/// has it.
pub proof fn the_first_with_an_id_is_found(ms: Seq<MountView>, id: u64)
    ensures
        match first_with(ms, id) {
            Some(m) => exists|k: int|
                0 <= k < ms.len() && #[trigger] ms[k] == m && m.id == id && (forall|j: int|
                    0 <= j < k ==> (#[trigger] ms[j]).id != id),
            None => forall|k: int| 0 <= k < ms.len() ==> (#[trigger] ms[k]).id != id,
        },
    decreases ms.len(),
{
    if ms.len() > 0 && ms[0].id != id {
        let rest = ms.skip(1);
        the_first_with_an_id_is_found(rest, id);
        if first_with(rest, id) is Some {
            let m = first_with(rest, id)->0;
            let k = choose|k: int|
                0 <= k < rest.len() && #[trigger] rest[k] == m && m.id == id && (forall|j: int|
                    0 <= j < k ==> (#[trigger] rest[j]).id != id);
            assert(ms[k + 1] == m);
            assert forall|j: int| 0 <= j < k + 1 implies (#[trigger] ms[j]).id != id by {
                if j > 0 {
                    assert(rest[j - 1] == ms[j]);
                }
            }
        } else {
            assert forall|k: int| 0 <= k < ms.len() implies (#[trigger] ms[k]).id != id by {
                if k > 0 {
                    assert(rest[k - 1] == ms[k]);
                }
            }
        }
    } else if ms.len() > 0 {
        assert(ms[0] == first_with(ms, id)->0);
    }
}

proof fn last_with_is_last(ms: Seq<MountView>, id: u64, k: int)
    requires
        0 <= k < ms.len(),
        ms[k].id == id,
        forall|j: int| k < j < ms.len() ==> (#[trigger] ms[j]).id != id,
    ensures
        last_with(ms, id) == Some(k),
    decreases ms.len(),
{
    if k < ms.len() - 1 {
        let front = ms.drop_last();
        assert(ms[ms.len() - 1].id != id);
        assert forall|j: int| k < j < front.len() implies (#[trigger] front[j]).id != id by {
            assert(ms[j].id != id);
        }
        last_with_is_last(front, id, k);
    }
}

/// A mount's point lies in the filesystem of its parent, at the place that the
/// parent shows there; nothing else of the mount changes. `k` is the parent.
pub proof fn a_mount_point_lies_in_its_parent(ms: Seq<MountView>, i: int, k: int)
    requires
        0 <= i < ms.len(),
        0 <= k < ms.len(),
        ms[k].id == ms[i].parent,
        forall|j: int| 0 <= j < ms.len() && j != k ==> (#[trigger] ms[j]).id != ms[i].parent,
    ensures
        placed(ms).len() == ms.len(),
        placed(ms)[i] == (MountView { under: placed(ms)[i].under, ..ms[i] }),
        match inside_of(ms[k], ms[i].point) {
            Some(p) => placed(ms)[i].under == Some((ms[k].fs, p)),
            None => placed(ms)[i].under is None,
        },
{
    last_with_is_last(ms, ms[i].parent, k);
}

/// Each line is read for itself: a line that can be read adds its mount behind
/// those before it, and any other line adds nothing.
pub proof fn each_line_counts_for_itself(lines: Seq<Seq<u8>>, l: Seq<u8>)
    ensures
        mounts_in(Seq::<Seq<u8>>::empty()).len() == 0,
        match line_of(l) {
            Some(m) if l.len() > 0 => mounts_in(lines.push(l)) == mounts_in(lines).push(m),
            _ => mounts_in(lines.push(l)) == mounts_in(lines),
        },
{
    assert(lines.push(l).drop_last() =~= lines);
}

fn find_last(ms: &Vec<Mount>, id: u64) -> (r: Option<usize>)
    ensures
        match r {
            Some(i) => i < ms@.len() && last_with(mount_views(ms@), id) == Some(i as int),
            None => last_with(mount_views(ms@), id) is None,
        },
{
    let ghost v = mount_views(ms@);
    let mut n: usize = ms.len();
    assert(v.take(n as int) =~= v);
    while n > 0
        invariant
            n <= ms.len(),
            v == mount_views(ms@),
            last_with(v, id) == last_with(v.take(n as int), id),
        decreases n,
    {
        assert(v.take(n as int).last() == ms@[n - 1]@);
        assert(v.take(n as int).drop_last() =~= v.take(n - 1));
        if ms[n - 1].id == id {
            return Some(n - 1);
        }
        n = n - 1;
    }
    None
}

impl Mounts {
    /// Reads a mount table. Lines that do not parse are skipped, and no order
    /// of the lines is relied on.
    pub fn parse(text: &[u8]) -> (r: Mounts)
        ensures
            r@ == placed(mounts_in(split_on(text@, 0x0a))),
    {
        let lines = split(text, 0x0a);
        let ghost all = split_on(text@, 0x0a);
        let mut ms: Vec<Mount> = Vec::new();
        let mut i: usize = 0;
        assert(mount_views(ms@) =~= mounts_in(all.take(0)));
        while i < lines.len()
            invariant
                i <= lines.len(),
                views(lines@) == all,
                mount_views(ms@) =~= mounts_in(all.take(i as int)),
            decreases lines.len() - i,
        {
            assert(all.take(i + 1).drop_last() =~= all.take(i as int));
            assert(lines@[i as int]@ == all[i as int]);
            if lines[i].len() != 0 {
                let ghost before = mount_views(ms@);
                if let Some(m) = parse_line(lines[i].as_slice()) {
                    ms.push(m);
                    assert(mount_views(ms@) =~= before.push(m@));
                }
            }
            i = i + 1;
        }
        assert(all.take(all.len() as int) =~= all);
        let ghost bare = mount_views(ms@);
        let mut out: Vec<Mount> = Vec::new();
        let mut k: usize = 0;
        while k < ms.len()
            invariant
                k <= ms.len(),
                bare == mount_views(ms@),
                mount_views(out@) =~= placed(bare).take(k as int),
            decreases ms.len() - k,
        {
            let m = &ms[k];
            assert(bare[k as int] == m@);
            let under = match find_last(&ms, m.parent) {
                None => None,
                Some(j) => {
                    let p = &ms[j];
                    assert(bare[j as int] == p@);
                    match inside(p, m.point.as_slice()) {
                        None => None,
                        Some(at) => Some((p.fs, at)),
                    }
                },
            };
            assert(place_view(under) == place_of(bare, m@));
            let full = Mount {
                id: m.id,
                parent: m.parent,
                fs: m.fs,
                root: copy(m.root.as_slice()),
                point: copy(m.point.as_slice()),
                ro: m.ro,
                fstype: copy(m.fstype.as_slice()),
                under,
            };
            assert(full@ =~= placed(bare)[k as int]);
            let ghost before = mount_views(out@);
            out.push(full);
            assert(mount_views(out@) =~= before.push(full@));
            k = k + 1;
        }
        assert(placed(bare).take(bare.len() as int) =~= placed(bare));
        Mounts(out)
    }

    /// The mounts, one after the other.
    pub fn iter(&self) -> (r: std::slice::Iter<'_, Mount>)
        ensures
            r.remaining() == self.0@.as_ref(),
    {
        self.0.as_slice().iter()
    }

    /// The first mount with this id.
    pub fn by_id(&self, id: u64) -> (r: Option<&Mount>)
        ensures
            match r {
                Some(m) => first_with(self@, id) == Some(m@),
                None => first_with(self@, id) is None,
            },
    {
        let mut i: usize = 0;
        assert(self@.skip(0) =~= self@);
        while i < self.0.len()
            invariant
                i <= self.0.len(),
                first_with(self@, id) == first_with(self@.skip(i as int), id),
            decreases self.0.len() - i,
        {
            assert(self@.skip(i as int)[0] == self.0@[i as int]@);
            assert(self@.skip(i as int).skip(1) =~= self@.skip(i + 1));
            if self.0[i].id == id {
                return Some(&self.0[i]);
            }
            i = i + 1;
        }
        None
    }
}

// ---------------------------------------------------------------------------
// Routes
// ---------------------------------------------------------------------------

/// A mount that shows both paths, with the paths as it shows them.
pub open spec fn shows(
    c: MountView,
    fa: MountView,
    a: Seq<u8>,
    fb: MountView,
    b: Seq<u8>,
) -> Option<(u64, Seq<u8>, Seq<u8>)> {
    match (through_of(fa, c, a), through_of(fb, c, b)) {
        (Some(x), Some(y)) => Some((c.id, x, y)),
        _ => None,
    }
}

/// The mounts of a list that show both paths; of those after the first, only
/// mounts of `fa`'s filesystem other than `fa`.
pub open spec fn showing(
    ms: Seq<MountView>,
    fa: MountView,
    a: Seq<u8>,
    fb: MountView,
    b: Seq<u8>,
) -> Seq<(u64, Seq<u8>, Seq<u8>)>
    decreases ms.len(),
{
    if ms.len() == 0 {
        match shows(fa, fa, a, fb, b) {
            Some(r) => seq![r],
            None => Seq::empty(),
        }
    } else {
        let front = showing(ms.drop_last(), fa, a, fb, b);
        let c = ms.last();
        if c.fs == fa.fs && c.id != fa.id {
            match shows(c, fa, a, fb, b) {
                Some(r) => front.push(r),
                None => front,
            }
        } else {
            front
        }
    }
}

/// The mounts that may show both `a` (in mount `am`) and `b` (in mount `bm`).
pub open spec fn routes(
    ms: Seq<MountView>,
    am: u64,
    a: Seq<u8>,
    bm: u64,
    b: Seq<u8>,
) -> Seq<(u64, Seq<u8>, Seq<u8>)> {
    match (first_with(ms, am), first_with(ms, bm)) {
        (Some(fa), Some(fb)) => if fa.fs == fb.fs {
            showing(ms, fa, a, fb, b)
        } else {
            Seq::empty()
        },
        _ => Seq::empty(),
    }
}

proof fn showing_holds(
    ms: Seq<MountView>,
    fa: MountView,
    a: Seq<u8>,
    fb: MountView,
    b: Seq<u8>,
    k: int,
    r: (u64, Seq<u8>, Seq<u8>),
)
    requires
        0 <= k < ms.len(),
        ms[k].fs == fa.fs,
        ms[k].id != fa.id,
        shows(ms[k], fa, a, fb, b) == Some(r),
    ensures
        showing(ms, fa, a, fb, b).contains(r),
    decreases ms.len(),
{
    let front = showing(ms.drop_last(), fa, a, fb, b);
    if k < ms.len() - 1 {
        showing_holds(ms.drop_last(), fa, a, fb, b, k, r);
        showing_goes_on(ms, fa, a, fb, b);
        let j = choose|j: int| 0 <= j < front.len() && front[j] == r;
        assert(showing(ms, fa, a, fb, b)[j] == r);
    } else {
        assert(showing(ms, fa, a, fb, b)[front.len() as int] == r);
    }
}

proof fn showing_goes_on(ms: Seq<MountView>, fa: MountView, a: Seq<u8>, fb: MountView, b: Seq<u8>)
    requires
        ms.len() > 0,
    ensures
        showing(ms.drop_last(), fa, a, fb, b).len() <= showing(ms, fa, a, fb, b).len(),
        forall|j: int|
            0 <= j < showing(ms.drop_last(), fa, a, fb, b).len() ==> #[trigger] showing(
                ms,
                fa,
                a,
                fb,
                b,
            )[j] == showing(ms.drop_last(), fa, a, fb, b)[j],
{
}

proof fn showing_only(
    ms: Seq<MountView>,
    fa: MountView,
    a: Seq<u8>,
    fb: MountView,
    b: Seq<u8>,
    j: int,
)
    requires
        0 <= j < showing(ms, fa, a, fb, b).len(),
    ensures
        ({
            let r = showing(ms, fa, a, fb, b)[j];
            (through_of(fa, fa, a) == Some(r.1) && through_of(fb, fa, b) == Some(r.2) && r.0
                == fa.id) || exists|k: int|
                0 <= k < ms.len() && (#[trigger] ms[k]).fs == fa.fs && ms[k].id == r.0 && through_of(
                    fa,
                    ms[k],
                    a,
                ) == Some(r.1) && through_of(fb, ms[k], b) == Some(r.2)
        }),
    decreases ms.len(),
{
    if ms.len() > 0 {
        let f = ms.drop_last();
        let front = showing(f, fa, a, fb, b);
        if j < front.len() {
            showing_only(f, fa, a, fb, b, j);
            let r = front[j];
            if exists|k: int|
                0 <= k < f.len() && (#[trigger] f[k]).fs == fa.fs && f[k].id == r.0 && through_of(
                    fa,
                    f[k],
                    a,
                ) == Some(r.1) && through_of(fb, f[k], b) == Some(r.2) {
                let k = choose|k: int|
                    0 <= k < f.len() && (#[trigger] f[k]).fs == fa.fs && f[k].id == r.0
                        && through_of(fa, f[k], a) == Some(r.1) && through_of(fb, f[k], b) == Some(
                        r.2,
                    );
                assert(ms[k] == f[k]);
            }
        } else {
            assert(ms[ms.len() - 1].fs == fa.fs);
        }
    }
}

proof fn showing_begins(ms: Seq<MountView>, fa: MountView, a: Seq<u8>, fb: MountView, b: Seq<u8>)
    requires
        shows(fa, fa, a, fb, b) is Some,
    ensures
        showing(ms, fa, a, fb, b).len() > 0,
        showing(ms, fa, a, fb, b)[0] == shows(fa, fa, a, fb, b)->0,
    decreases ms.len(),
{
    if ms.len() > 0 {
        showing_begins(ms.drop_last(), fa, a, fb, b);
    }
}

/// Every mount of the filesystem that shows both paths is a candidate, with the
/// paths as it shows them; the mount of the first path comes first, where it
/// shows both; and nothing else is a candidate. Paths on two filesystems have
/// none.
pub proof fn every_mount_that_shows_both_is_tried(
    ms: Seq<MountView>,
    fa: MountView,
    a: Seq<u8>,
    fb: MountView,
    b: Seq<u8>,
)
    requires
        first_with(ms, fa.id) == Some(fa),
        first_with(ms, fb.id) == Some(fb),
    ensures
        fa.fs != fb.fs ==> routes(ms, fa.id, a, fb.id, b).len() == 0,
        fa.fs == fb.fs ==> forall|k: int|
            0 <= k < ms.len() && (#[trigger] ms[k]).fs == fa.fs && (ms[k].id != fa.id || ms[k]
                == fa) && through_of(fa, ms[k], a) is Some && through_of(fb, ms[k], b) is Some
                ==> routes(ms, fa.id, a, fb.id, b).contains(
                (ms[k].id, through_of(fa, ms[k], a)->0, through_of(fb, ms[k], b)->0),
            ),
        fa.fs == fb.fs && through_of(fa, fa, a) is Some && through_of(fb, fa, b) is Some ==> routes(
            ms,
            fa.id,
            a,
            fb.id,
            b,
        ).len() > 0 && routes(ms, fa.id, a, fb.id, b)[0] == (
            fa.id,
            through_of(fa, fa, a)->0,
            through_of(fb, fa, b)->0,
        ),
        forall|j: int|
            0 <= j < routes(ms, fa.id, a, fb.id, b).len() ==> ({
                let r = #[trigger] routes(ms, fa.id, a, fb.id, b)[j];
                exists|k: int|
                    0 <= k < ms.len() && (#[trigger] ms[k]).fs == fa.fs && ms[k].id == r.0
                        && through_of(fa, ms[k], a) == Some(r.1) && through_of(fb, ms[k], b) == Some(
                        r.2,
                    )
            }),
{
    the_first_with_an_id_is_found(ms, fa.id);
    if fa.fs == fb.fs {
        let all = routes(ms, fa.id, a, fb.id, b);
        if shows(fa, fa, a, fb, b) is Some {
            showing_begins(ms, fa, a, fb, b);
        }
        assert forall|k: int|
            0 <= k < ms.len() && (#[trigger] ms[k]).fs == fa.fs && (ms[k].id != fa.id || ms[k]
                == fa) && through_of(fa, ms[k], a) is Some && through_of(fb, ms[k], b) is Some implies all.contains(
            (ms[k].id, through_of(fa, ms[k], a)->0, through_of(fb, ms[k], b)->0),
        ) by {
            if ms[k].id != fa.id {
                showing_holds(ms, fa, a, fb, b, k, shows(ms[k], fa, a, fb, b)->0);
            } else {
                assert(all[0] == shows(fa, fa, a, fb, b)->0);
            }
        }
        let own = choose|k: int| 0 <= k < ms.len() && #[trigger] ms[k] == fa;
        assert forall|j: int| 0 <= j < all.len() implies ({
            let r = #[trigger] all[j];
            exists|k: int|
                0 <= k < ms.len() && (#[trigger] ms[k]).fs == fa.fs && ms[k].id == r.0
                    && through_of(fa, ms[k], a) == Some(r.1) && through_of(fb, ms[k], b) == Some(r.2)
        }) by {
            showing_only(ms, fa, a, fb, b, j);
            assert(ms[own] == fa);
        }
    }
}

/// What a list of routes holds.
pub open spec fn route_views(v: Seq<(u64, Vec<u8>, Vec<u8>)>) -> Seq<(u64, Seq<u8>, Seq<u8>)> {
    Seq::new(v.len(), |i: int| (v[i].0, v[i].1@, v[i].2@))
}

/// A route is read part by part: its mount, and where it leads to the one place and to the other.
pub proof fn a_route_is_read_part_by_part(v: Seq<(u64, Vec<u8>, Vec<u8>)>)
    ensures
        route_views(v).len() == v.len(),
        forall|i: int|
            0 <= i < v.len() ==> #[trigger] route_views(v)[i] == (v[i].0, v[i].1@, v[i].2@),
{
}

fn push_route(
    out: &mut Vec<(u64, Vec<u8>, Vec<u8>)>,
    c: &Mount,
    fa: &Mount,
    a: &[u8],
    fb: &Mount,
    b: &[u8],
)
    ensures
        route_views(final(out)@) == (match shows(c@, fa@, a@, fb@, b@) {
            Some(r) => route_views(old(out)@).push(r),
            None => route_views(old(out)@),
        }),
{
    if let Some(x) = through(fa, c, a) {
        if let Some(y) = through(fb, c, b) {
            let ghost before = route_views(out@);
            out.push((c.id, x, y));
            assert(route_views(out@) =~= before.push((c.id, x@, y@)));
        }
    }
}

/// The mounts that may show both `a` (in mount `am`) and `b` (in mount `bm`),
/// with the paths as each shows them; `am` itself comes first.
pub fn route_candidates(ms: &Mounts, am: u64, a: &[u8], bm: u64, b: &[u8]) -> (out: Vec<
    (u64, Vec<u8>, Vec<u8>),
>)
    ensures
        route_views(out@) == routes(ms@, am, a@, bm, b@),
{
    let mut out: Vec<(u64, Vec<u8>, Vec<u8>)> = Vec::new();
    assert(route_views(out@) =~= Seq::empty());
    let fa = match ms.by_id(am) {
        None => return out,
        Some(m) => m,
    };
    let fb = match ms.by_id(bm) {
        None => return out,
        Some(m) => m,
    };
    if fa.fs != fb.fs {
        return out;
    }
    push_route(&mut out, fa, fa, a, fb, b);
    let mut i: usize = 0;
    assert(route_views(out@) =~= showing(ms@.take(0), fa@, a@, fb@, b@));
    while i < ms.0.len()
        invariant
            i <= ms.0.len(),
            route_views(out@) =~= showing(ms@.take(i as int), fa@, a@, fb@, b@),
        decreases ms.0.len() - i,
    {
        let c = &ms.0[i];
        assert(ms@.take(i + 1).drop_last() =~= ms@.take(i as int));
        assert(ms@.take(i + 1).last() == c@);
        if c.fs == fa.fs && c.id != fa.id {
            push_route(&mut out, c, fa, a, fb, b);
        }
        i = i + 1;
    }
    assert(ms@.take(ms@.len() as int) =~= ms@);
    out
}

// ---------------------------------------------------------------------------
// Conflicts
// ---------------------------------------------------------------------------

/// The mount is of the same filesystem, another one, and its root lies in `p`.
pub open spec fn bound_from(m: MountView, own: MountView, p: Seq<u8>) -> bool {
    m.fs == own.fs && m.id != own.id && under(comps(m.root), comps(p))
}

/// The mount's point lies in `p`, on `fs`.
pub open spec fn mounted_in(m: MountView, fs: FsId, p: Seq<u8>) -> bool {
    m.under matches Some(at) && at.0 == fs && under(comps(at.1), comps(p))
}

/// The first mount whose root lies in `p`.
pub open spec fn first_bound(ms: Seq<MountView>, own: MountView, p: Seq<u8>) -> Option<MountView>
    decreases ms.len(),
{
    if ms.len() == 0 {
        None
    } else if bound_from(ms[0], own, p) {
        Some(ms[0])
    } else {
        first_bound(ms.skip(1), own, p)
    }
}

/// The first mount whose point lies in `p`.
pub open spec fn first_mounted(ms: Seq<MountView>, fs: FsId, p: Seq<u8>) -> Option<MountView>
    decreases ms.len(),
{
    if ms.len() == 0 {
        None
    } else if mounted_in(ms[0], fs, p) {
        Some(ms[0])
    } else {
        first_mounted(ms.skip(1), fs, p)
    }
}

/// Why `path`, reached through `own`, must not be moved or deleted.
pub open spec fn conflict_of(
    ms: Seq<MountView>,
    own: MountView,
    path: Seq<u8>,
    is_mount_root: bool,
) -> Option<Seq<char>> {
    if is_mount_root || comps(path) == comps(own.point) {
        Some("is a mount point"@)
    } else {
        match inside_of(own, path) {
            None => None,
            Some(p) => match first_bound(ms, own, p) {
                Some(m) => Some("is mounted at "@ + escaped(m.point)),
                None => match first_mounted(ms, own.fs, p) {
                    Some(m) => Some("contains the mount point "@ + escaped(m.point)),
                    None => None,
                },
            },
        }
    }
}

fn find_bound<'a>(ms: &'a Mounts, own: &Mount, p: &[u8]) -> (r: Option<&'a Mount>)
    ensures
        match r {
            Some(m) => first_bound(ms@, own@, p@) == Some(m@),
            None => first_bound(ms@, own@, p@) is None,
        },
{
    let pc = components(p);
    let mut i: usize = 0;
    assert(ms@.skip(0) =~= ms@);
    while i < ms.0.len()
        invariant
            i <= ms.0.len(),
            views(pc@) == comps(p@),
            first_bound(ms@, own@, p@) == first_bound(ms@.skip(i as int), own@, p@),
        decreases ms.0.len() - i,
    {
        let m = &ms.0[i];
        assert(ms@.skip(i as int)[0] == m@);
        assert(ms@.skip(i as int).skip(1) =~= ms@.skip(i + 1));
        if m.fs == own.fs && m.id != own.id {
            let rc = components(m.root.as_slice());
            if begins_with(rc.as_slice(), pc.as_slice()) {
                return Some(m);
            }
        }
        i = i + 1;
    }
    None
}

fn find_mounted<'a>(ms: &'a Mounts, fs: FsId, p: &[u8]) -> (r: Option<&'a Mount>)
    ensures
        match r {
            Some(m) => first_mounted(ms@, fs, p@) == Some(m@),
            None => first_mounted(ms@, fs, p@) is None,
        },
{
    let pc = components(p);
    let mut i: usize = 0;
    assert(ms@.skip(0) =~= ms@);
    while i < ms.0.len()
        invariant
            i <= ms.0.len(),
            views(pc@) == comps(p@),
            first_mounted(ms@, fs, p@) == first_mounted(ms@.skip(i as int), fs, p@),
        decreases ms.0.len() - i,
    {
        let m = &ms.0[i];
        assert(ms@.skip(i as int)[0] == m@);
        assert(ms@.skip(i as int).skip(1) =~= ms@.skip(i + 1));
        if let Some(at) = &m.under {
            assert(m@.under == Some((at.0, at.1@)));
            if at.0 == fs {
                let ac = components(at.1.as_slice());
                if begins_with(ac.as_slice(), pc.as_slice()) {
                    return Some(m);
                }
            }
        }
        i = i + 1;
    }
    None
}

/// Why `path` (reached through its own mount `own`) must not be trashed, if
/// there is a reason. Paths inside the filesystem are compared, so that a view
/// through another mount makes no difference.
pub fn mount_conflict(ms: &Mounts, own: &Mount, path: &[u8], is_mount_root: bool) -> (r: Option<
    String,
>)
    ensures
        match r {
            Some(why) => conflict_of(ms@, own@, path@, is_mount_root) == Some(why@),
            None => conflict_of(ms@, own@, path@, is_mount_root) is None,
        },
{
    if is_mount_root || same_path(path, own.point.as_slice()) {
        return Some("is a mount point".to_owned());
    }
    let p = match inside(own, path) {
        None => return None,
        Some(p) => p,
    };
    if let Some(m) = find_bound(ms, own, p.as_slice()) {
        let mut s = String::from_str("is mounted at ");
        s.append(escape(m.point.as_slice()).as_str());
        return Some(s);
    }
    if let Some(m) = find_mounted(ms, own.fs, p.as_slice()) {
        let mut s = String::from_str("contains the mount point ");
        s.append(escape(m.point.as_slice()).as_str());
        return Some(s);
    }
    None
}

proof fn first_mounted_finds(ms: Seq<MountView>, fs: FsId, p: Seq<u8>, i: int)
    requires
        0 <= i < ms.len(),
        mounted_in(ms[i], fs, p),
    ensures
        first_mounted(ms, fs, p) is Some,
    decreases ms.len(),
{
    if !mounted_in(ms[0], fs, p) {
        assert(ms.skip(1)[i - 1] == ms[i]);
        first_mounted_finds(ms.skip(1), fs, p, i - 1);
    }
}

/// A mount below a path is noticed through whatever mount the path was reached:
/// only the place inside the filesystem counts.
pub proof fn mounts_below_are_noticed(
    ms: Seq<MountView>,
    own: MountView,
    path: Seq<u8>,
    is_mount_root: bool,
    i: int,
)
    requires
        0 <= i < ms.len(),
        inside_of(own, path) is Some,
        mounted_in(ms[i], own.fs, inside_of(own, path)->0) || bound_from(
            ms[i],
            own,
            inside_of(own, path)->0,
        ),
    ensures
        conflict_of(ms, own, path, is_mount_root) is Some,
{
    let p = inside_of(own, path)->0;
    if mounted_in(ms[i], own.fs, p) {
        first_mounted_finds(ms, own.fs, p, i);
    } else {
        first_bound_finds(ms, own, p, i);
    }
}

proof fn first_bound_finds(ms: Seq<MountView>, own: MountView, p: Seq<u8>, i: int)
    requires
        0 <= i < ms.len(),
        bound_from(ms[i], own, p),
    ensures
        first_bound(ms, own, p) is Some,
    decreases ms.len(),
{
    if !bound_from(ms[0], own, p) {
        assert(ms.skip(1)[i - 1] == ms[i]);
        first_bound_finds(ms.skip(1), own, p, i - 1);
    }
}

/// A path is held back just where there is a reason: it is a mount point, or
/// inside its filesystem another mount's root, or some mount's point, lies at it
/// or below it.
pub proof fn a_conflict_has_its_reason(
    ms: Seq<MountView>,
    own: MountView,
    path: Seq<u8>,
    is_mount_root: bool,
)
    ensures
        conflict_of(ms, own, path, is_mount_root) is Some <==> is_mount_root || comps(path)
            == comps(own.point) || (inside_of(own, path) is Some && exists|i: int|
            0 <= i < ms.len() && ({
                let p = comps(inside_of(own, path)->0);
                ((#[trigger] ms[i]).fs == own.fs && ms[i].id != own.id && under(
                    comps(ms[i].root),
                    p,
                )) || (ms[i].under is Some && (ms[i].under->0).0 == own.fs && under(
                    comps((ms[i].under->0).1),
                    p,
                ))
            })),
        is_mount_root || comps(path) == comps(own.point) ==> conflict_of(
            ms,
            own,
            path,
            is_mount_root,
        ) == Some("is a mount point"@),
{
    if !is_mount_root && comps(path) != comps(own.point) && inside_of(own, path) is Some {
        let p = inside_of(own, path)->0;
        bound_is_one_of(ms, own, p);
        mounted_is_one_of(ms, own.fs, p);
        assert forall|i: int| 0 <= i < ms.len() && bound_from(#[trigger] ms[i], own, p) implies first_bound(
            ms,
            own,
            p,
        ) is Some by {
            first_bound_finds(ms, own, p, i);
        }
        assert forall|i: int| 0 <= i < ms.len() && mounted_in(#[trigger] ms[i], own.fs, p) implies first_mounted(
            ms,
            own.fs,
            p,
        ) is Some by {
            first_mounted_finds(ms, own.fs, p, i);
        }
    }
}

proof fn bound_is_one_of(ms: Seq<MountView>, own: MountView, p: Seq<u8>)
    ensures
        first_bound(ms, own, p) matches Some(m) ==> exists|i: int|
            0 <= i < ms.len() && #[trigger] ms[i] == m && bound_from(ms[i], own, p),
    decreases ms.len(),
{
    if ms.len() > 0 {
        bound_is_one_of(ms.skip(1), own, p);
        if bound_from(ms[0], own, p) {
            assert(ms[0] == first_bound(ms, own, p)->0);
        } else if let Some(m) = first_bound(ms, own, p) {
            let i = choose|i: int| 0 <= i < ms.skip(1).len() && #[trigger] ms.skip(1)[i] == m;
            assert(ms[i + 1] == m);
        }
    }
}

proof fn mounted_is_one_of(ms: Seq<MountView>, fs: FsId, p: Seq<u8>)
    ensures
        first_mounted(ms, fs, p) matches Some(m) ==> exists|i: int|
            0 <= i < ms.len() && #[trigger] ms[i] == m && mounted_in(ms[i], fs, p),
    decreases ms.len(),
{
    if ms.len() > 0 {
        mounted_is_one_of(ms.skip(1), fs, p);
        if mounted_in(ms[0], fs, p) {
            assert(ms[0] == first_mounted(ms, fs, p)->0);
        } else if let Some(m) = first_mounted(ms, fs, p) {
            let i = choose|i: int| 0 <= i < ms.skip(1).len() && #[trigger] ms.skip(1)[i] == m;
            assert(ms[i + 1] == m);
        }
    }
}

/// Of what a mount holds back, the mount is named: where another mount shows
/// what lies there, or the mount point that lies below.
pub proof fn a_conflict_names_its_mount(
    ms: Seq<MountView>,
    own: MountView,
    path: Seq<u8>,
)
    requires
        comps(path) != comps(own.point),
        conflict_of(ms, own, path, false) is Some,
    ensures
        exists|i: int|
            0 <= i < ms.len() && ({
                let p = comps(inside_of(own, path)->0);
                let why = conflict_of(ms, own, path, false)->0;
                ((#[trigger] ms[i]).fs == own.fs && ms[i].id != own.id && under(
                    comps(ms[i].root),
                    p,
                ) && why == "is mounted at "@ + escaped(ms[i].point)) || (ms[i].under is Some && (
                ms[i].under->0).0 == own.fs && under(comps((ms[i].under->0).1), p) && why
                    == "contains the mount point "@ + escaped(ms[i].point))
            }),
{
    let p = inside_of(own, path)->0;
    bound_is_one_of(ms, own, p);
    mounted_is_one_of(ms, own.fs, p);
}

} // verus!
