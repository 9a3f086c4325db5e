use vstd::prelude::*;
use crate::defs::Error;
use crate::mounts::{
    data_options, join_comma, mount_op_for, option_flags, options_of, parse_mount, str_eq,
    valid_destination, Mount, MountFrom, MountOp, Spec, ValidDestination, MS_BIND, MS_RDONLY,
    MS_REC,
};
use crate::path::{is_abs, join, IsAbs, Join};

verus! {

/// Where sandboxes keep their filesystems unless told otherwise.
pub open spec fn default_root_path() -> Seq<char> {
    "/var/lib/quark/"@
}

/// The default root of sandbox filesystems.
pub fn DefaultSandboxRootPath() -> (r: String)
    ensures
        r@ == default_root_path(),
{
    String::from_str("/var/lib/quark/")
}

/// Mounts the filesystems of a sandbox's containers below its root.
#[derive(Debug)]
pub struct FsImageMounter {
    pub rootPath: String,
    pub sandboxId: String,
}

/// The index of the first mount whose destination is refused, or the
/// number of mounts when there is none.
pub open spec fn stop_index(ms: Seq<Mount>) -> nat
    decreases ms.len(),
{
    if ms.len() == 0 {
        0
    } else if stop_index(ms.drop_last()) < ms.len() - 1 {
        stop_index(ms.drop_last())
    } else if valid_destination(ms.last().destination@) {
        ms.len()
    } else {
        (ms.len() - 1) as nat
    }
}

/// The mounts that are performed: all but the cgroup ones.
pub open spec fn mounted(ms: Seq<Mount>) -> Seq<Mount>
    decreases ms.len(),
{
    if ms.len() == 0 {
        seq![]
    } else {
        let r = mounted(ms.drop_last());
        if ms.last().typ@ == "cgroup"@ {
            r
        } else {
            r.push(ms.last())
        }
    }
}

/// The flags of a mount: those of its options, without read-only for
/// `/dev` (devices are mounted there afterwards).
pub open spec fn mount_flags_for(m: Mount) -> u64 {
    let f = option_flags(options_of(m));
    if m.destination@ == "/dev"@ {
        f & !MS_RDONLY
    } else {
        f
    }
}

/// The filesystem data of a mount: its unknown options joined by commas.
pub open spec fn mount_data_for(m: Mount) -> Seq<char> {
    join_comma(data_options(options_of(m)))
}

pub proof fn lemma_stop_prefix(ms: Seq<Mount>, k: int)
    requires
        0 <= k <= ms.len(),
        stop_index(ms.subrange(0, k)) < k,
    ensures
        stop_index(ms) == stop_index(ms.subrange(0, k)),
    decreases ms.len() - k,
{
    if k == ms.len() {
        assert(ms.subrange(0, k) =~= ms);
    } else {
        assert(ms.subrange(0, k + 1).drop_last() =~= ms.subrange(0, k));
        lemma_stop_prefix(ms, k + 1);
    }
}

/// What mounting a container's filesystem does, in order: mount the root
/// (recursive bind of `rootSource` at `rootTarget`); stop there with a
/// panic if `noLinux` (the configuration has no linux section); then each
/// mount of `mounts`; then, if a mount's destination was refused, fail with
/// `error`.
#[derive(Debug)]
pub struct ContainerMounts {
    pub rootSource: String,
    pub rootTarget: String,
    pub rootFlags: u64,
    pub noLinux: bool,
    pub mounts: Vec<MountOp>,
    pub error: Option<Error>,
}

impl FsImageMounter {
    /// A mounter for sandbox `sandboxId` below `rootPath`.
    pub fn NewWithRootPath(sandboxId: &str, rootPath: &str) -> (m: Self)
        ensures
            m.rootPath@ == rootPath@,
            m.sandboxId@ == sandboxId@,
    {
        FsImageMounter { rootPath: String::from_str(rootPath), sandboxId: String::from_str(sandboxId) }
    }

    /// A mounter for sandbox `sandboxId` below the default root.
    pub fn New(sandboxId: &str) -> (m: Self)
        ensures
            m.rootPath@ == default_root_path(),
            m.sandboxId@ == sandboxId@,
    {
        FsImageMounter { rootPath: DefaultSandboxRootPath(), sandboxId: String::from_str(sandboxId) }
    }

    /// The root of this sandbox's filesystem.
    pub fn sandboxRoot(&self) -> (r: String)
        ensures
            r@ == join(self.rootPath@, self.sandboxId@),
    {
        Join(self.rootPath.as_str(), self.sandboxId.as_str())
    }

    /// The mounts that make the filesystem of container `containerId`, whose
    /// configuration `spec` came from `bundleDir`, available in the sandbox:
    /// its root filesystem bound below the sandbox root, then each mount of
    /// the configuration below the sandbox root, cgroup mounts left out; a
    /// destination that is not absolute or holds `..` stops the list there
    /// with an error. Without a linux section nothing follows the root mount
    /// (the caller then stops).
    pub fn MountContainerFs(&self, bundleDir: &str, spec: &Spec, containerId: &str) -> (r: ContainerMounts)
        ensures
            r.rootSource@ == (if is_abs(spec.root.path@) {
                spec.root.path@
            } else {
                join(bundleDir@, spec.root.path@)
            }),
            r.rootTarget@ == join(join(self.rootPath@, self.sandboxId@), containerId@),
            r.rootFlags == MS_REC | MS_BIND,
            r.noLinux == (spec.linux is None),
            spec.linux is None ==> r.mounts@.len() == 0 && r.error is None,
            spec.linux is Some ==> r.mounts@.len() == mounted(spec.mounts@.subrange(0, stop_index(spec.mounts@) as int)).len(),
            spec.linux is Some ==> forall|j: int|
                0 <= j < r.mounts@.len() ==> {
                    let m = #[trigger] mounted(spec.mounts@.subrange(0, stop_index(spec.mounts@) as int))[j];
                    mount_op_for(
                        r.mounts@[j],
                        m,
                        join(self.rootPath@, self.sandboxId@),
                        mount_flags_for(m),
                        mount_data_for(m),
                        spec.linux->0.mount_label@,
                    )
                },
            spec.linux is Some ==> (r.error is Some) == (stop_index(spec.mounts@) < spec.mounts@.len()),
            r.error is Some ==> match r.error->0 {
                Error::Common(msg) => msg@ == "invalid mount destination: "@
                    + spec.mounts@[stop_index(spec.mounts@) as int].destination@,
                _ => false,
            },
    {
        let rbindFlags = MS_REC | MS_BIND;
        let rootSpec = spec.root.path.as_str();
        let containerFsRootSource = if IsAbs(rootSpec) {
            String::from_str(rootSpec)
        } else {
            Join(bundleDir, rootSpec)
        };
        let sandboxRoot = self.sandboxRoot();
        let containerFsRootTarget = Join(sandboxRoot.as_str(), containerId);
        let linux = match spec.linux.as_ref() {
            Some(l) => l,
            None => {
                return ContainerMounts {
                    rootSource: containerFsRootSource,
                    rootTarget: containerFsRootTarget,
                    rootFlags: rbindFlags,
                    noLinux: true,
                    mounts: Vec::new(),
                    error: None,
                };
            },
        };
        let label = linux.mount_label.as_str();
        let ghost ms = spec.mounts@;
        let n = spec.mounts.len();
        let mut ops: Vec<MountOp> = Vec::new();
        let mut i: usize = 0;
        proof {
            assert(ms.subrange(0, 0) =~= Seq::<Mount>::empty());
        }
        while i < n
            invariant
                spec.linux is Some,
                n == ms.len(),
                ms == spec.mounts@,
                i <= n,
                sandboxRoot@ == join(self.rootPath@, self.sandboxId@),
                containerFsRootSource@ == (if is_abs(spec.root.path@) {
                    spec.root.path@
                } else {
                    join(bundleDir@, spec.root.path@)
                }),
                containerFsRootTarget@ == join(join(self.rootPath@, self.sandboxId@), containerId@),
                label@ == spec.linux->0.mount_label@,
                rbindFlags == MS_REC | MS_BIND,
                stop_index(ms.subrange(0, i as int)) == i,
                ops@.len() == mounted(ms.subrange(0, i as int)).len(),
                forall|j: int|
                    0 <= j < ops@.len() ==> {
                        let m = #[trigger] mounted(ms.subrange(0, i as int))[j];
                        mount_op_for(ops@[j], m, sandboxRoot@, mount_flags_for(m), mount_data_for(m), label@)
                    },
            decreases n - i,
        {
            let m = &spec.mounts[i];
            let ghost sub = ms.subrange(0, i + 1);
            proof {
                assert(sub.drop_last() =~= ms.subrange(0, i as int));
                assert(sub.last() == *m);
            }
            if !ValidDestination(m.destination.as_str()) {
                let mut msg = String::from_str("invalid mount destination: ");
                msg.append(m.destination.as_str());
                proof {
                    lemma_stop_prefix(ms, i + 1);
                }
                return ContainerMounts {
                    rootSource: containerFsRootSource,
                    rootTarget: containerFsRootTarget,
                    rootFlags: rbindFlags,
                    noLinux: false,
                    mounts: ops,
                    error: Some(Error::Common(msg)),
                };
            }
            let (flags, data) = parse_mount(m);
            let ghost ops0 = ops@;
            if str_eq(m.typ.as_str(), "cgroup") {
                // cgroups are not mounted
            } else {
                let f = if str_eq(m.destination.as_str(), "/dev") {
                    flags & !MS_RDONLY
                } else {
                    flags
                };
                let op = MountFrom(m, sandboxRoot.as_str(), f, data.as_str(), label);
                ops.push(op);
                proof {
                    assert forall|j: int| 0 <= j < ops@.len() implies {
                        let mm = #[trigger] mounted(sub)[j];
                        mount_op_for(ops@[j], mm, sandboxRoot@, mount_flags_for(mm), mount_data_for(mm), label@)
                    } by {
                        if j < ops0.len() {
                            assert(mounted(sub)[j] == mounted(ms.subrange(0, i as int))[j]);
                        }
                    }
                }
            }
            i = i + 1;
        }
        proof {
            assert(ms.subrange(0, n as int) =~= ms);
        }
        ContainerMounts {
            rootSource: containerFsRootSource,
            rootTarget: containerFsRootTarget,
            rootFlags: rbindFlags,
            noLinux: false,
            mounts: ops,
            error: None,
        }
    }
}

} // verus!
