use vstd::prelude::*;
use crate::defs::Error;
use crate::path::{is_abs, join, IsAbs, Join};

verus! {

/// Mount flag: read only.
pub const MS_RDONLY: u64 = 1;
/// Mount flag: ignore set-user-id bits.
pub const MS_NOSUID: u64 = 2;
/// Mount flag: no device files.
pub const MS_NODEV: u64 = 4;
/// Mount flag: no execution.
pub const MS_NOEXEC: u64 = 8;
/// Mount flag: synchronous writes.
pub const MS_SYNCHRONOUS: u64 = 16;
/// Mount flag: change an existing mount.
pub const MS_REMOUNT: u64 = 32;
/// Mount flag: mandatory locks.
pub const MS_MANDLOCK: u64 = 64;
/// Mount flag: synchronous directory changes.
pub const MS_DIRSYNC: u64 = 128;
/// Mount flag: no access times.
pub const MS_NOATIME: u64 = 1024;
/// Mount flag: no directory access times.
pub const MS_NODIRATIME: u64 = 2048;
/// Mount flag: bind mount.
pub const MS_BIND: u64 = 4096;
/// Mount flag: apply to the whole subtree.
pub const MS_REC: u64 = 16384;
/// Mount flag: unbindable propagation.
pub const MS_UNBINDABLE: u64 = 0x20000;
/// Mount flag: private propagation.
pub const MS_PRIVATE: u64 = 0x40000;
/// Mount flag: slave propagation.
pub const MS_SLAVE: u64 = 0x80000;
/// Mount flag: shared propagation.
pub const MS_SHARED: u64 = 0x100000;
/// Mount flag: relative access times.
pub const MS_RELATIME: u64 = 0x200000;
/// Mount flag: strict access times.
pub const MS_STRICTATIME: u64 = 0x1000000;

/// Whether two strings hold the same characters.
pub fn str_eq(a: &str, b: &str) -> (r: bool)
    ensures
        r == (a@ == b@),
{
    let n = a.unicode_len();
    if n != b.unicode_len() {
        return false;
    }
    let mut i: usize = 0;
    while i < n
        invariant
            n == a@.len(),
            n == b@.len(),
            i <= n,
            forall|j: int| 0 <= j < i ==> a@[j] == b@[j],
        decreases n - i,
    {
        if a.get_char(i) != b.get_char(i) {
            return false;
        }
        i = i + 1;
    }
    assert(a@ =~= b@);
    true
}

/// The effect of a mount option: whether it clears flags, and which; none
/// for an option that is passed on as filesystem data.
pub open spec fn mount_option(o: Seq<char>) -> Option<(bool, u64)> {
    if o == "defaults"@ {
        Some((false, 0u64))
    } else if o == "ro"@ {
        Some((false, MS_RDONLY))
    } else if o == "rw"@ {
        Some((true, MS_RDONLY))
    } else if o == "suid"@ {
        Some((true, MS_NOSUID))
    } else if o == "nosuid"@ {
        Some((false, MS_NOSUID))
    } else if o == "dev"@ {
        Some((true, MS_NODEV))
    } else if o == "nodev"@ {
        Some((false, MS_NODEV))
    } else if o == "exec"@ {
        Some((true, MS_NOEXEC))
    } else if o == "noexec"@ {
        Some((false, MS_NOEXEC))
    } else if o == "sync"@ {
        Some((false, MS_SYNCHRONOUS))
    } else if o == "async"@ {
        Some((true, MS_SYNCHRONOUS))
    } else if o == "dirsync"@ {
        Some((false, MS_DIRSYNC))
    } else if o == "remount"@ {
        Some((false, MS_REMOUNT))
    } else if o == "mand"@ {
        Some((false, MS_MANDLOCK))
    } else if o == "nomand"@ {
        Some((true, MS_MANDLOCK))
    } else if o == "atime"@ {
        Some((true, MS_NOATIME))
    } else if o == "noatime"@ {
        Some((false, MS_NOATIME))
    } else if o == "diratime"@ {
        Some((true, MS_NODIRATIME))
    } else if o == "nodiratime"@ {
        Some((false, MS_NODIRATIME))
    } else if o == "bind"@ {
        Some((false, MS_BIND))
    } else if o == "rbind"@ {
        Some((false, MS_BIND | MS_REC))
    } else if o == "unbindable"@ {
        Some((false, MS_UNBINDABLE))
    } else if o == "runbindable"@ {
        Some((false, MS_UNBINDABLE | MS_REC))
    } else if o == "private"@ {
        Some((false, MS_PRIVATE))
    } else if o == "rprivate"@ {
        Some((false, MS_PRIVATE | MS_REC))
    } else if o == "shared"@ {
        Some((false, MS_SHARED))
    } else if o == "rshared"@ {
        Some((false, MS_SHARED | MS_REC))
    } else if o == "slave"@ {
        Some((false, MS_SLAVE))
    } else if o == "rslave"@ {
        Some((false, MS_SLAVE | MS_REC))
    } else if o == "relatime"@ {
        Some((false, MS_RELATIME))
    } else if o == "norelatime"@ {
        Some((true, MS_RELATIME))
    } else if o == "strictatime"@ {
        Some((false, MS_STRICTATIME))
    } else if o == "nostrictatime"@ {
        Some((true, MS_STRICTATIME))
    } else {
        None
    }
}

/// Looks a mount option up (see `mount_option`).
pub fn MountOption(o: &str) -> (r: Option<(bool, u64)>)
    ensures
        r == mount_option(o@),
{
    if str_eq(o, "defaults") {
        Some((false, 0u64))
    } else if str_eq(o, "ro") {
        Some((false, MS_RDONLY))
    } else if str_eq(o, "rw") {
        Some((true, MS_RDONLY))
    } else if str_eq(o, "suid") {
        Some((true, MS_NOSUID))
    } else if str_eq(o, "nosuid") {
        Some((false, MS_NOSUID))
    } else if str_eq(o, "dev") {
        Some((true, MS_NODEV))
    } else if str_eq(o, "nodev") {
        Some((false, MS_NODEV))
    } else if str_eq(o, "exec") {
        Some((true, MS_NOEXEC))
    } else if str_eq(o, "noexec") {
        Some((false, MS_NOEXEC))
    } else if str_eq(o, "sync") {
        Some((false, MS_SYNCHRONOUS))
    } else if str_eq(o, "async") {
        Some((true, MS_SYNCHRONOUS))
    } else if str_eq(o, "dirsync") {
        Some((false, MS_DIRSYNC))
    } else if str_eq(o, "remount") {
        Some((false, MS_REMOUNT))
    } else if str_eq(o, "mand") {
        Some((false, MS_MANDLOCK))
    } else if str_eq(o, "nomand") {
        Some((true, MS_MANDLOCK))
    } else if str_eq(o, "atime") {
        Some((true, MS_NOATIME))
    } else if str_eq(o, "noatime") {
        Some((false, MS_NOATIME))
    } else if str_eq(o, "diratime") {
        Some((true, MS_NODIRATIME))
    } else if str_eq(o, "nodiratime") {
        Some((false, MS_NODIRATIME))
    } else if str_eq(o, "bind") {
        Some((false, MS_BIND))
    } else if str_eq(o, "rbind") {
        Some((false, MS_BIND | MS_REC))
    } else if str_eq(o, "unbindable") {
        Some((false, MS_UNBINDABLE))
    } else if str_eq(o, "runbindable") {
        Some((false, MS_UNBINDABLE | MS_REC))
    } else if str_eq(o, "private") {
        Some((false, MS_PRIVATE))
    } else if str_eq(o, "rprivate") {
        Some((false, MS_PRIVATE | MS_REC))
    } else if str_eq(o, "shared") {
        Some((false, MS_SHARED))
    } else if str_eq(o, "rshared") {
        Some((false, MS_SHARED | MS_REC))
    } else if str_eq(o, "slave") {
        Some((false, MS_SLAVE))
    } else if str_eq(o, "rslave") {
        Some((false, MS_SLAVE | MS_REC))
    } else if str_eq(o, "relatime") {
        Some((false, MS_RELATIME))
    } else if str_eq(o, "norelatime") {
        Some((true, MS_RELATIME))
    } else if str_eq(o, "strictatime") {
        Some((false, MS_STRICTATIME))
    } else if str_eq(o, "nostrictatime") {
        Some((true, MS_STRICTATIME))
    } else {
        None
    }
}

/// A mount of a container's configuration.
#[derive(Debug)]
pub struct Mount {
    pub destination: String,
    pub typ: String,
    pub source: String,
    pub options: Vec<String>,
}

/// The root filesystem of a container's configuration.
#[derive(Debug)]
pub struct Root {
    pub path: String,
    pub readonly: bool,
}

/// The Linux part of a container's configuration.
#[derive(Debug)]
pub struct Linux {
    pub mount_label: String,
}

/// The parts of a container's configuration that mounting reads.
#[derive(Debug)]
pub struct Spec {
    pub root: Root,
    pub mounts: Vec<Mount>,
    pub linux: Option<Linux>,
}

/// The options of a mount.
pub open spec fn options_of(m: Mount) -> Seq<Seq<char>> {
    m.options@.map_values(|o: String| o@)
}

/// The flags that options `opts` set, in order: each known option sets or
/// clears its flags.
pub open spec fn option_flags(opts: Seq<Seq<char>>) -> u64
    decreases opts.len(),
{
    if opts.len() == 0 {
        0
    } else {
        let f = option_flags(opts.drop_last());
        match mount_option(opts.last()) {
            Some((clear, m)) => if clear {
                f & !m
            } else {
                f | m
            },
            None => f,
        }
    }
}

/// The options that are not known flags, in order.
pub open spec fn data_options(opts: Seq<Seq<char>>) -> Seq<Seq<char>>
    decreases opts.len(),
{
    if opts.len() == 0 {
        seq![]
    } else {
        let d = data_options(opts.drop_last());
        if mount_option(opts.last()) is None {
            d.push(opts.last())
        } else {
            d
        }
    }
}

/// The elements `cs` separated by commas.
pub open spec fn join_comma(cs: Seq<Seq<char>>) -> Seq<char>
    decreases cs.len(),
{
    if cs.len() == 0 {
        seq![]
    } else if cs.len() == 1 {
        cs[0]
    } else {
        join_comma(cs.drop_last()) + seq![','] + cs.last()
    }
}

pub proof fn lemma_data_options_len(opts: Seq<Seq<char>>)
    ensures
        data_options(opts).len() <= opts.len(),
    decreases opts.len(),
{
    if opts.len() > 0 {
        lemma_data_options_len(opts.drop_last());
    }
}

/// Splits the options of `m` into mount flags and filesystem data (the
/// unknown options joined by commas).
pub fn parse_mount(m: &Mount) -> (r: (u64, String))
    ensures
        r.0 == option_flags(options_of(*m)),
        r.1@ == join_comma(data_options(options_of(*m))),
{
    let ghost opts = options_of(*m);
    let mut flags: u64 = 0;
    let mut data = String::new();
    let mut nd: usize = 0;
    let n = m.options.len();
    let mut i: usize = 0;
    proof {
        reveal_strlit(",");
        assert(opts.subrange(0, 0) =~= Seq::<Seq<char>>::empty());
    }
    while i < n
        invariant
            n == m.options@.len(),
            opts == options_of(*m),
            i <= n,
            ","@ == seq![','],
            flags == option_flags(opts.subrange(0, i as int)),
            nd == data_options(opts.subrange(0, i as int)).len(),
            data@ == join_comma(data_options(opts.subrange(0, i as int))),
        decreases n - i,
    {
        let o = m.options[i].as_str();
        let ghost sub = opts.subrange(0, i + 1);
        proof {
            assert(sub.drop_last() =~= opts.subrange(0, i as int));
            assert(sub.last() == o@);
        }
        match MountOption(o) {
            Some((clear, f)) => {
                if clear {
                    flags = flags & !f;
                } else {
                    flags = flags | f;
                }
            },
            None => {
                let ghost d0 = data_options(opts.subrange(0, i as int));
                proof {
                    lemma_data_options_len(opts.subrange(0, i as int));
                }
                if nd > 0 {
                    data.append(",");
                }
                data.append(o);
                proof {
                    let d1 = d0.push(o@);
                    assert(d1.drop_last() =~= d0);
                    if nd == 0 {
                        assert(data@ =~= join_comma(d1));
                    } else {
                        assert(data@ =~= join_comma(d1));
                    }
                }
                nd = nd + 1;
            },
        }
        i = i + 1;
    }
    proof {
        assert(opts.subrange(0, n as int) =~= opts);
    }
    (flags, data)
}

/// Whether `..` starts at index `i` of `d`.
pub open spec fn dotdot_at(d: Seq<char>, i: int) -> bool {
    0 <= i && i + 1 < d.len() && d[i] == '.' && d[i + 1] == '.'
}

/// Whether a mount destination is accepted: absolute and without `..`.
pub open spec fn valid_destination(d: Seq<char>) -> bool {
    is_abs(d) && !(exists|i: int| #[trigger] dotdot_at(d, i))
}

/// Whether a mount destination is accepted (see `valid_destination`).
pub fn ValidDestination(d: &str) -> (r: bool)
    ensures
        r == valid_destination(d@),
{
    if !IsAbs(d) {
        return false;
    }
    let n = d.unicode_len();
    let mut i: usize = 0;
    while n > 1 && i < n - 1
        invariant
            n == d@.len(),
            i <= n,
            forall|j: int| 0 <= j < i ==> !#[trigger] dotdot_at(d@, j),
        decreases n - i,
    {
        if d.get_char(i) == '.' && d.get_char(i + 1) == '.' {
            assert(dotdot_at(d@, i as int));
            return false;
        }
        i = i + 1;
    }
    proof {
        assert forall|j: int| !#[trigger] dotdot_at(d@, j) by {
            if 0 <= j < i {
            }
        }
    }
    true
}

/// A mount to perform under a sandbox root.
#[derive(Debug)]
pub struct MountOp {
    /// What to mount (a bind mount's source is resolved by the caller).
    pub source: String,
    /// Where to mount it.
    pub target: String,
    /// The filesystem type.
    pub typ: String,
    /// The mount flags.
    pub flags: u64,
    /// The filesystem data.
    pub data: String,
    /// Whether this is a bind mount.
    pub bind: bool,
    /// The flags of the remount that a bind mount needs to apply flags that
    /// a bind mount alone ignores.
    pub remount: Option<u64>,
}

/// The filesystem data with the security label added, except for `proc`
/// and `sysfs` or when there is no label.
pub open spec fn labelled_data(typ: Seq<char>, data: Seq<char>, label: Seq<char>) -> Seq<char> {
    if label.len() > 0 && typ != "proc"@ && typ != "sysfs"@ {
        if data.len() == 0 {
            "context=\""@ + label + "\""@
        } else {
            data + ",context=\""@ + label + "\""@
        }
    } else {
        data
    }
}

/// The remount a bind mount with `flags` needs: when it sets flags other
/// than the bind, recursion and propagation ones, it is bound again with
/// the remount flag.
pub open spec fn remount_for(flags: u64) -> Option<u64> {
    if flags & MS_BIND != 0 && flags & !(MS_REC | MS_REMOUNT | MS_BIND | MS_PRIVATE | MS_SHARED
        | MS_SLAVE) != 0 {
        Some(flags | MS_REMOUNT)
    } else {
        None
    }
}

/// Whether `op` mounts `m` under `rootfs` with `flags` and `data`, labelled
/// with `label`.
pub open spec fn mount_op_for(op: MountOp, m: Mount, rootfs: Seq<char>, flags: u64, data: Seq<char>, label: Seq<char>) -> bool {
    &&& op.source@ == m.source@
    &&& op.target@ == rootfs + m.destination@
    &&& op.typ@ == m.typ@
    &&& op.flags == flags
    &&& op.data@ == labelled_data(m.typ@, data, label)
    &&& op.bind == (m.typ@ == "bind"@)
    &&& op.remount == remount_for(flags)
}

/// The mount of `m` under `rootfs` with `flags` and `data`, labelled with
/// `label`.
pub fn MountFrom(m: &Mount, rootfs: &str, flags: u64, data: &str, label: &str) -> (op: MountOp)
    ensures
        mount_op_for(op, *m, rootfs@, flags, data@, label@),
{
    let typ = m.typ.as_str();
    let d = if label.unicode_len() > 0 && !str_eq(typ, "proc") && !str_eq(typ, "sysfs") {
        let mut d = String::from_str(data);
        if data.unicode_len() == 0 {
            d.append("context=\"");
        } else {
            d.append(",context=\"");
        }
        d.append(label);
        d.append("\"");
        proof {
            if data@.len() == 0 {
                assert(d@ =~= "context=\""@ + label@ + "\""@);
            } else {
                assert(d@ =~= data@ + ",context=\""@ + label@ + "\""@);
            }
        }
        d
    } else {
        String::from_str(data)
    };
    let mut target = String::from_str(rootfs);
    target.append(m.destination.as_str());
    let remount = if flags & MS_BIND != 0 && flags & !(MS_REC | MS_REMOUNT | MS_BIND | MS_PRIVATE
        | MS_SHARED | MS_SLAVE) != 0 {
        Some(flags | MS_REMOUNT)
    } else {
        None
    };
    MountOp {
        source: m.source.clone(),
        target,
        typ: m.typ.clone(),
        flags,
        data: d,
        bind: str_eq(typ, "bind"),
        remount,
    }
}

} // verus!
