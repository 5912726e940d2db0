use vstd::prelude::*;

use crate::handler::{
    find_child, find_index, lemma_find_index, lemma_listing_view_is_directory, DirectoryListing,
    EntryKind, FileHandler, HandlerView, PathHandler,
};
use crate::identity::ItemIdentity;
use std::collections::HashMap;

verus! {

broadcast use vstd::std_specs::hash::group_hash_axioms;

/// The error taxonomy of the router.
///
/// `NoSuchEntry` is replied when a requested inode or child name has no
/// bound handler; `NotADirectory` when a directory-only operation targets a
/// file; `NotSupported` is the uniform reply the host must give to every
/// protocol request this router does not implement, preserving the
/// read-only contract.
#[derive(Debug, Clone, Copy, PartialEq, Eq, Structural)]
pub enum FsError {
    NoSuchEntry,
    NotADirectory,
    NotSupported,
}

/// The attribute record replied for one entry. Timestamps are not carried:
/// entries are immutable for the mount's life, so the host replies a fixed
/// zero time for all of them.
#[derive(Debug, Clone, Copy, PartialEq, Eq, Structural)]
pub struct FileAttributes {
    pub ino: u64,
    pub size: u64,
    pub blocks: u64,
    pub kind: EntryKind,
    pub perm: u16,
    pub nlink: u32,
}

/// One entry of a directory listing reply: the entry's inode, the cursor at
/// which the kernel resumes after this entry, its kind, and its name.
#[derive(Debug)]
pub struct DirEntry {
    pub ino: u64,
    pub next_offset: u64,
    pub kind: EntryKind,
    pub name: String,
}

/// The attributes synthesized for a directory: fixed 4096-byte size, 8
/// blocks, link count 2, mode 0755.
pub open spec fn dir_attr(ino: u64) -> FileAttributes {
    FileAttributes {
        ino,
        size: 4096,
        blocks: 8,
        kind: EntryKind::Directory,
        perm: 0o755,
        nlink: 2,
    }
}

/// The attributes synthesized for a file of the given size: block count is
/// size divided by 512, truncating; link count 1, mode 0755.
pub open spec fn file_attr(ino: u64, size: u64) -> FileAttributes {
    FileAttributes {
        ino,
        size,
        blocks: size / 512,
        kind: EntryKind::RegularFile,
        perm: 0o755,
        nlink: 1,
    }
}

/// The attributes synthesized for the entry `h` bound at `ino`.
pub open spec fn attr_of(h: HandlerView, ino: u64) -> FileAttributes {
    match h {
        HandlerView::Directory { .. } => dir_attr(ino),
        HandlerView::File { size, .. } => file_attr(ino, size),
    }
}

/// The mathematical state of the router: which handler each inode resolves
/// to, each inode's parent inode, which inode each identity token was bound
/// to, and the next inode to mint.
#[verifier::ext_equal]
pub struct RouterModel {
    pub handlers: Map<u64, HandlerView>,
    pub parents: Map<u64, u64>,
    pub ids: Map<u64, u64>,
    pub next: u64,
}

/// The router's invariant.
///
/// Identity-to-inode bindings are injective, so the identity and inode maps
/// are mutual inverses; minted inodes lie strictly below the counter and
/// never collide with the root inode 1; the root is its own parent; every
/// bound inode has a parent; the root, once bound, is a directory; and
/// every bound handler is well-formed.
pub open spec fn model_inv(m: RouterModel) -> bool {
    &&& 2 <= m.next
    &&& (forall|id: u64| m.ids.contains_key(id) ==> 2 <= #[trigger] m.ids[id] < m.next)
    &&& (forall|id1: u64, id2: u64|
        m.ids.contains_key(id1) && m.ids.contains_key(id2) && id1 != id2 ==> #[trigger] m.ids[id1]
            != #[trigger] m.ids[id2])
    &&& m.parents.contains_key(1) && m.parents[1] == 1
    &&& (forall|ino: u64| #[trigger] m.handlers.contains_key(ino) ==> m.parents.contains_key(ino))
    &&& (m.handlers.contains_key(1) ==> m.handlers[1] is Directory)
    &&& (forall|ino: u64| #[trigger] m.handlers.contains_key(ino) ==> ino == 1 || 2 <= ino < m.next)
    &&& (forall|ino: u64| m.handlers.contains_key(ino) ==> (#[trigger] m.handlers[ino]).wf())
}

/// The inode that surfacing the identity `id` yields: the one already bound
/// to it, or the next counter value.
pub open spec fn mint_ino(m: RouterModel, id: u64) -> u64 {
    if m.ids.contains_key(id) {
        m.ids[id]
    } else {
        m.next
    }
}

/// The state after surfacing the identity `id`: unchanged if `id` is bound
/// already, else `id` is bound to the counter and the counter advances.
pub open spec fn mint(m: RouterModel, id: u64) -> RouterModel {
    if m.ids.contains_key(id) {
        m
    } else {
        RouterModel { ids: m.ids.insert(id, m.next), next: (m.next + 1) as u64, ..m }
    }
}

/// The state after surfacing the child entry `c` of the directory bound at
/// `parent`: `c`'s identity is minted, and `c` and its parent link are
/// recorded under the resulting inode.
pub open spec fn bind(m: RouterModel, parent: u64, c: HandlerView) -> RouterModel {
    let ino = mint_ino(m, c.id());
    let m1 = mint(m, c.id());
    RouterModel {
        handlers: m1.handlers.insert(ino, c),
        parents: m1.parents.insert(ino, parent),
        ..m1
    }
}

/// The state after surfacing all of `children` in listing order.
pub open spec fn bind_all(
    m: RouterModel,
    parent: u64,
    children: Seq<(Seq<char>, HandlerView)>,
) -> RouterModel
    decreases children.len(),
{
    if children.len() == 0 {
        m
    } else {
        bind(bind_all(m, parent, children.drop_last()), parent, children.last().1)
    }
}

/// The inodes that surfacing `children` in listing order yields, pointwise.
pub open spec fn child_inos(
    m: RouterModel,
    parent: u64,
    children: Seq<(Seq<char>, HandlerView)>,
) -> Seq<u64>
    decreases children.len(),
{
    if children.len() == 0 {
        Seq::empty()
    } else {
        child_inos(m, parent, children.drop_last()).push(
            mint_ino(bind_all(m, parent, children.drop_last()), children.last().1.id()),
        )
    }
}

/// Minting preserves the router's invariant and touches only the identity
/// bindings and the counter.
pub proof fn lemma_mint_preserves_inv(m: RouterModel, id: u64)
    requires
        model_inv(m),
        m.next < u64::MAX,
    ensures
        model_inv(mint(m, id)),
        mint(m, id).handlers == m.handlers,
        mint(m, id).parents == m.parents,
        mint(m, id).ids.contains_key(id),
        mint(m, id).ids[id] == mint_ino(m, id),
        m.next <= mint(m, id).next <= m.next + 1,
        2 <= mint_ino(m, id) < mint(m, id).next,
        forall|other: u64|
            m.ids.contains_key(other) ==> mint(m, id).ids.contains_key(other) && mint(
                m,
                id,
            ).ids[other] == #[trigger] m.ids[other],
{
}

/// Surfacing a well-formed child preserves the router's invariant; the
/// child ends up bound, with its parent link, at the minted inode, and
/// nothing else in the handler or parent maps changes.
pub proof fn lemma_bind_preserves_inv(m: RouterModel, parent: u64, c: HandlerView)
    requires
        model_inv(m),
        c.wf(),
        m.next < u64::MAX,
    ensures
        model_inv(bind(m, parent, c)),
        m.next <= bind(m, parent, c).next <= m.next + 1,
        ({
            let ino = mint_ino(m, c.id());
            let m2 = bind(m, parent, c);
            &&& 2 <= ino < m2.next
            &&& m2.handlers == m.handlers.insert(ino, c)
            &&& m2.parents == m.parents.insert(ino, parent)
            &&& m2.ids == mint(m, c.id()).ids
        }),
{
    lemma_mint_preserves_inv(m, c.id());
    let ino = mint_ino(m, c.id());
    let m2 = bind(m, parent, c);
    assert(m2.handlers =~= m.handlers.insert(ino, c));
    assert(m2.parents =~= m.parents.insert(ino, parent));
    assert forall|k: u64| #[trigger] m2.handlers.contains_key(k) implies m2.parents.contains_key(
        k,
    ) by {
        if k != ino {
            assert(m.handlers.contains_key(k));
        }
    }
    assert forall|k: u64| #[trigger] m2.handlers.contains_key(k) implies k == 1 || 2 <= k
        < m2.next by {
        if k != ino {
            assert(m.handlers.contains_key(k));
        }
    }
    assert forall|k: u64| m2.handlers.contains_key(k) implies (#[trigger] m2.handlers[k]).wf() by {
        if k != ino {
            assert(m.handlers.contains_key(k));
            assert(m.handlers[k].wf());
        }
    }
}

/// What `lookup` does to the router's state in state `m`: on a hit the
/// child is surfaced; on every miss the state is unchanged.
pub open spec fn spec_lookup_model(m: RouterModel, parent: u64, name: Seq<char>) -> RouterModel {
    if !m.handlers.contains_key(parent) {
        m
    } else {
        let h = m.handlers[parent];
        if !(h is Directory) {
            m
        } else {
            match find_child(h.entries(), name) {
                None => m,
                Some(c) => bind(m, parent, c),
            }
        }
    }
}

/// What `lookup` replies in state `m`: `NoSuchEntry` for an unbound parent
/// inode or a missing child name, `NotADirectory` for a file parent, and
/// otherwise the child's attributes under its resolved-or-minted inode.
pub open spec fn spec_lookup_reply(m: RouterModel, parent: u64, name: Seq<char>) -> Result<
    FileAttributes,
    FsError,
> {
    if !m.handlers.contains_key(parent) {
        Err(FsError::NoSuchEntry)
    } else {
        let h = m.handlers[parent];
        if !(h is Directory) {
            Err(FsError::NotADirectory)
        } else {
            match find_child(h.entries(), name) {
                None => Err(FsError::NoSuchEntry),
                Some(c) => Ok(attr_of(c, mint_ino(m, c.id()))),
            }
        }
    }
}

/// Each child surfaced by a directory listing yields one inode.
pub proof fn lemma_child_inos_len(
    m: RouterModel,
    parent: u64,
    children: Seq<(Seq<char>, HandlerView)>,
)
    ensures
        child_inos(m, parent, children).len() == children.len(),
    decreases children.len(),
{
    if children.len() > 0 {
        lemma_child_inos_len(m, parent, children.drop_last());
    }
}

/// What `readdir` does to the router's state in state `m`: on a directory
/// it surfaces every child in listing order, whatever the offset; on every
/// miss the state is unchanged.
pub open spec fn spec_readdir_model(m: RouterModel, ino: u64) -> RouterModel {
    if m.handlers.contains_key(ino) && m.handlers[ino] is Directory {
        bind_all(m, ino, m.handlers[ino].entries())
    } else {
        m
    }
}

/// Whether the inode counter has room to surface every child of the
/// directory bound at `ino`; holds vacuously when `ino` is not a bound
/// directory.
pub open spec fn readdir_room(m: RouterModel, ino: u64) -> bool {
    m.handlers.contains_key(ino) && m.handlers[ino] is Directory ==> m.next as int
        + m.handlers[ino].entries().len() <= u64::MAX as int
}

/// The `j`th element of the full listing of the directory bound at `ino`
/// with children `ch`, starting in state `m`: "." and ".." first, then each
/// child under its resolved-or-minted inode, each entry tagged with its
/// 1-based position as the next resumption cursor.
pub open spec fn readdir_entry_ok(
    m: RouterModel,
    ino: u64,
    ch: Seq<(Seq<char>, HandlerView)>,
    j: int,
    e: DirEntry,
) -> bool {
    &&& e.next_offset == j + 1
    &&& if j == 0 {
        e.ino == ino && e.kind == EntryKind::Directory && e.name@ == "."@
    } else if j == 1 {
        e.ino == m.parents[ino] && e.kind == EntryKind::Directory && e.name@ == ".."@
    } else {
        &&& e.ino == child_inos(m, ino, ch)[j - 2]
        &&& e.kind == ch[j - 2].1.kind()
        &&& e.name@ == ch[j - 2].0
    }
}

/// Law: minting is idempotent. Surfacing an identity a second time returns
/// the same inode as the first time and leaves the state unchanged, so a
/// repeated identity can never be bound to two inodes.
pub proof fn lemma_mint_idempotent(m: RouterModel, id: u64)
    ensures
        mint_ino(mint(m, id), id) == mint_ino(m, id),
        mint(mint(m, id), id) == mint(m, id),
{
}

/// Law: the identity-to-inode and inode-to-identity mappings are mutual
/// inverses in every state satisfying the router's invariant — which
/// `new` establishes and every operation preserves. The binding is a map,
/// so no identity resolves to two inodes; this lemma states the converse,
/// that no two identities resolve to one inode.
pub proof fn lemma_identity_inode_bijection(m: RouterModel, id1: u64, id2: u64)
    requires
        model_inv(m),
        m.ids.contains_key(id1),
        m.ids.contains_key(id2),
    ensures
        id1 == id2 <==> m.ids[id1] == m.ids[id2],
{
}

/// What `getattr` replies in state `m`.
pub open spec fn spec_getattr(m: RouterModel, ino: u64) -> Result<FileAttributes, FsError> {
    if !m.handlers.contains_key(ino) {
        Err(FsError::NoSuchEntry)
    } else {
        Ok(attr_of(m.handlers[ino], ino))
    }
}

/// Law: the root always resolves to a directory. In every state satisfying
/// the router's invariant with the root bound, `getattr(1)` reports kind
/// Directory, and the first two entries of a listing of inode 1 are "."
/// and "..", both referencing inode 1 — the root is its own parent.
pub proof fn lemma_root_is_directory(
    m: RouterModel,
    ch: Seq<(Seq<char>, HandlerView)>,
    e0: DirEntry,
    e1: DirEntry,
)
    requires
        model_inv(m),
        m.handlers.contains_key(1),
        readdir_entry_ok(m, 1, ch, 0, e0),
        readdir_entry_ok(m, 1, ch, 1, e1),
    ensures
        spec_getattr(m, 1) == Ok::<FileAttributes, FsError>(dir_attr(1)),
        dir_attr(1).kind == EntryKind::Directory,
        e0.ino == 1 && e0.kind == EntryKind::Directory && e0.name@ == "."@,
        e1.ino == 1 && e1.kind == EntryKind::Directory && e1.name@ == ".."@,
{
}

/// Law: a successful lookup and a subsequent `getattr` on the inode it
/// returned report the identical attribute record — in particular the same
/// size and the same kind.
pub proof fn lemma_lookup_getattr_agree(
    m: RouterModel,
    parent: u64,
    name: Seq<char>,
    attr: FileAttributes,
)
    requires
        model_inv(m),
        m.next < u64::MAX,
        spec_lookup_reply(m, parent, name) == Ok::<FileAttributes, FsError>(attr),
    ensures
        spec_getattr(spec_lookup_model(m, parent, name), attr.ino) == Ok::<
            FileAttributes,
            FsError,
        >(attr),
{
    let h = m.handlers[parent];
    lemma_find_index(h.entries(), name);
    match find_child(h.entries(), name) {
        Some(c) => {
            let idx = find_index(h.entries(), name);
            assert(h.wf());
            assert(h.entries()[idx].1.wf());
            lemma_bind_preserves_inv(m, parent, c);
            let ino = mint_ino(m, c.id());
            assert(bind(m, parent, c).handlers[ino] == c);
        },
        None => {
            assert(false);
        },
    }
}

/// The inode-routing engine: resolves kernel-visible inode numbers to
/// handler-tree entries and answers the metadata and namespace requests of
/// the protocol. Inode 1 is permanently the tree root; all other inodes are
/// minted lazily, the first time an entry's identity is surfaced to the
/// kernel, and are never reused for the life of the mount.
pub struct RoutableFilesystem<F: FileHandler> {
    ino_to_handler: HashMap<u64, PathHandler<F>>,
    ino_parent: HashMap<u64, u64>,
    identity_to_ino: HashMap<u64, u64>,
    latest_ino: u64,
}

impl<F: FileHandler> RoutableFilesystem<F> {
    /// The mathematical state this router is in.
    pub closed spec fn model(self) -> RouterModel {
        RouterModel {
            handlers: Map::new(
                |ino: u64| self.ino_to_handler@.contains_key(ino),
                |ino: u64| self.ino_to_handler@[ino]@,
            ),
            parents: self.ino_parent@,
            ids: self.identity_to_ino@,
            next: self.latest_ino,
        }
    }

    /// The router's invariant, over its mathematical state.
    pub open spec fn wf(self) -> bool {
        model_inv(self.model())
    }

    /// A router with no tree installed: only the root parent link is known,
    /// and the first inode to be minted is 2.
    pub fn new() -> (r: RoutableFilesystem<F>)
        ensures
            r.wf(),
            r.model().handlers == Map::<u64, HandlerView>::empty(),
            r.model().parents == Map::<u64, u64>::empty().insert(1, 1),
            r.model().ids == Map::<u64, u64>::empty(),
            r.model().next == 2,
    {
        let mut parents: HashMap<u64, u64> = HashMap::new();
        parents.insert(1, 1);
        let r = RoutableFilesystem {
            ino_to_handler: HashMap::<u64, PathHandler<F>>::new(),
            ino_parent: parents,
            identity_to_ino: HashMap::<u64, u64>::new(),
            latest_ino: 2,
        };
        proof {
            assert(r.model().handlers =~= Map::<u64, HandlerView>::empty());
            assert(r.model().parents =~= Map::<u64, u64>::empty().insert(1, 1));
        }
        r
    }

    /// Install `root` as the tree behind inode 1. The previous binding of
    /// inode 1, if any, is replaced; nothing else changes.
    pub fn set_root(&mut self, root: DirectoryListing<F>)
        requires
            old(self).wf(),
            root@.wf(),
        ensures
            final(self).wf(),
            final(self).model().handlers == old(self).model().handlers.insert(1, root@),
            final(self).model().parents == old(self).model().parents,
            final(self).model().ids == old(self).model().ids,
            final(self).model().next == old(self).model().next,
    {
        proof {
            lemma_listing_view_is_directory(root);
        }
        self.ino_to_handler.insert(1, PathHandler::Directory(root));
        proof {
            let m0 = old(self).model();
            let m1 = self.model();
            assert(m1.handlers =~= m0.handlers.insert(1, root@));
            assert(m1.ids =~= m0.ids);
            assert(m1.parents =~= m0.parents);
            assert forall|ino: u64| #[trigger] m1.handlers.contains_key(ino)
                && ino != 1 implies m0.handlers.contains_key(ino) && m1.handlers[ino]
                == m0.handlers[ino] by {}
            assert(forall|ino: u64|
                m1.handlers.contains_key(ino) ==> (#[trigger] m1.handlers[ino]).wf());
        }
    }

    /// The inode bound to `identity`, minting a fresh one on first sight.
    /// This is the sole inode-minting path; repeating an identity returns
    /// the same inode again.
    pub fn get_ino_by_identity(&mut self, identity: ItemIdentity) -> (ino: u64)
        requires
            old(self).wf(),
            old(self).model().next < u64::MAX,
        ensures
            final(self).wf(),
            ino == mint_ino(old(self).model(), identity.value()),
            final(self).model() == mint(old(self).model(), identity.value()),
    {
        let key = identity.raw();
        match self.identity_to_ino.get(&key) {
            Some(ino) => {
                let r = *ino;
                proof {
                    assert(self.model() =~= mint(old(self).model(), identity.value()));
                }
                r
            },
            None => {
                let ino = self.latest_ino;
                self.identity_to_ino.insert(key, ino);
                self.latest_ino = self.latest_ino + 1;
                proof {
                    assert(self.model().ids =~= mint(old(self).model(), identity.value()).ids);
                    assert(self.model() =~= mint(old(self).model(), identity.value()));
                }
                ino
            },
        }
    }

    /// Whether one more inode can be minted without exhausting the counter;
    /// hosts check this before `lookup`.
    pub fn can_mint(&self) -> (r: bool)
        ensures
            r == (self.model().next < u64::MAX),
    {
        self.latest_ino < u64::MAX
    }

    /// A no-op hook for future setup; always succeeds.
    pub fn init(&mut self) -> (r: Result<(), FsError>)
        ensures
            r == Ok::<(), FsError>(()),
            *final(self) == *old(self),
    {
        Ok(())
    }

    /// The uniform reply for every protocol request this router does not
    /// implement, every mutating operation among them: the host answers
    /// these with it rather than silently succeeding, preserving the
    /// read-only contract.
    pub fn unsupported(&self) -> (e: FsError)
        ensures
            e == FsError::NotSupported,
    {
        FsError::NotSupported
    }

    /// Resolve the child named `name` of the directory bound at `parent`:
    /// reply its attributes, minting or reusing its inode, and record the
    /// child's handler and parent link under that inode. Fails with
    /// `NoSuchEntry` if `parent` is unbound or no child carries `name`, and
    /// with `NotADirectory` if the parent entry is a file.
    pub fn lookup(&mut self, parent: u64, name: &str) -> (r: Result<FileAttributes, FsError>)
        requires
            old(self).wf(),
            old(self).model().next < u64::MAX,
        ensures
            final(self).wf(),
            final(self).model() == spec_lookup_model(old(self).model(), parent, name@),
            r == spec_lookup_reply(old(self).model(), parent, name@),
    {
        let ghost m0 = self.model();
        let found: Option<PathHandler<F>> = match self.ino_to_handler.get(&parent) {
            None => {
                return Err(FsError::NoSuchEntry);
            },
            Some(h) => {
                proof {
                    h.lemma_view_shape();
                }
                match h {
                    PathHandler::File(_) => {
                        return Err(FsError::NotADirectory);
                    },
                    PathHandler::Directory(d) => d.get_child(name),
                }
            },
        };
        let ghost hview = m0.handlers[parent];
        match found {
            None => Err(FsError::NoSuchEntry),
            Some(c) => {
                proof {
                    c.lemma_view_shape();
                    lemma_find_index(hview.entries(), name@);
                    let idx = find_index(hview.entries(), name@);
                    assert(hview.entries()[idx].1 == c@);
                    assert(hview.wf());
                    assert(hview.entries()[idx].1.wf());
                }
                let id = c.get_identity();
                let attr = match &c {
                    PathHandler::Directory(_) => FileAttributes {
                        ino: 0,
                        size: 4096,
                        blocks: 8,
                        kind: EntryKind::Directory,
                        perm: 0o755,
                        nlink: 2,
                    },
                    PathHandler::File(f) => {
                        let size = f.get_size();
                        FileAttributes {
                            ino: 0,
                            size,
                            blocks: size / 512,
                            kind: EntryKind::RegularFile,
                            perm: 0o755,
                            nlink: 1,
                        }
                    },
                };
                let ino = self.get_ino_by_identity(id);
                let attr = FileAttributes { ino, ..attr };
                self.ino_to_handler.insert(ino, c);
                self.ino_parent.insert(ino, parent);
                proof {
                    lemma_bind_preserves_inv(m0, parent, hview.entries()[find_index(
                        hview.entries(),
                        name@,
                    )].1);
                    assert(self.model().handlers =~= bind(m0, parent, c@).handlers);
                    assert(self.model().parents =~= bind(m0, parent, c@).parents);
                    assert(self.model() =~= bind(m0, parent, c@));
                }
                Ok(attr)
            },
        }
    }

    /// Whether the inode counter has room to list the directory bound at
    /// `ino`; hosts check this before `readdir`. True whenever `ino` is not
    /// a bound directory, since listing it mints nothing.
    pub fn can_readdir(&self, ino: u64) -> (r: bool)
        ensures
            r == readdir_room(self.model(), ino),
    {
        match self.ino_to_handler.get(&ino) {
            Some(h) => {
                proof {
                    h.lemma_view_shape();
                }
                match h {
                    PathHandler::Directory(d) => {
                        let n = d.child_count();
                        n as u64 <= u64::MAX - self.latest_ino
                    },
                    PathHandler::File(_) => true,
                }
            },
            None => true,
        }
    }

    /// The full listing of the directory bound at `ino`, resuming after the
    /// first `offset` entries: "." and ".." first (referencing this inode
    /// and its parent), then each child in listing order under its
    /// resolved-or-minted inode, each entry tagged with its 1-based position
    /// as the next resumption cursor. Every child is surfaced and recorded
    /// whatever the offset. Fails with `NoSuchEntry` if `ino` is unbound
    /// and with `NotADirectory` if the entry is a file.
    pub fn readdir(&mut self, ino: u64, offset: u64) -> (r: Result<Vec<DirEntry>, FsError>)
        requires
            old(self).wf(),
            readdir_room(old(self).model(), ino),
        ensures
            final(self).wf(),
            final(self).model() == spec_readdir_model(old(self).model(), ino),
            ({
                let m0 = old(self).model();
                if !m0.handlers.contains_key(ino) {
                    r == Err::<Vec<DirEntry>, FsError>(FsError::NoSuchEntry)
                } else if !(m0.handlers[ino] is Directory) {
                    r == Err::<Vec<DirEntry>, FsError>(FsError::NotADirectory)
                } else {
                    let ch = m0.handlers[ino].entries();
                    let total = ch.len() + 2;
                    r matches Ok(v) && v@.len() == (
                    if offset as int <= total {
                        total - offset
                    } else {
                        0
                    }) && (forall|k: int|
                        0 <= k < v@.len() ==> readdir_entry_ok(
                            m0,
                            ino,
                            ch,
                            offset + k,
                            #[trigger] v@[k],
                        ))
                }
            }),
    {
        let ghost m0 = self.model();
        let dir: DirectoryListing<F> = match self.ino_to_handler.get(&ino) {
            None => {
                return Err(FsError::NoSuchEntry);
            },
            Some(h) => {
                proof {
                    h.lemma_view_shape();
                }
                match h {
                    PathHandler::File(_) => {
                        return Err(FsError::NotADirectory);
                    },
                    PathHandler::Directory(d) => d.clone(),
                }
            },
        };
        let ghost ch = m0.handlers[ino].entries();
        let parent_ino: u64 = match self.ino_parent.get(&ino) {
            Some(p) => *p,
            None => {
                proof {
                    assert(m0.handlers.contains_key(ino));
                    assert(m0.parents.contains_key(ino));
                    assert(false);
                }
                return Err(FsError::NoSuchEntry);
            },
        };
        let listing = dir.listdir();
        let mut entries: Vec<DirEntry> = Vec::new();
        entries.push(
            DirEntry { ino, next_offset: 1, kind: EntryKind::Directory, name: ".".to_owned() },
        );
        entries.push(
            DirEntry {
                ino: parent_ino,
                next_offset: 2,
                kind: EntryKind::Directory,
                name: "..".to_owned(),
            },
        );
        let n = listing.len();
        proof {
            assert(m0.handlers[ino].wf());
            assert(ch.take(0) =~= Seq::<(Seq<char>, HandlerView)>::empty());
            lemma_child_inos_len(m0, ino, ch.take(0));
        }
        let mut i: usize = 0;
        while i < n
            invariant
                self.wf(),
                model_inv(m0),
                m0.handlers.contains_key(ino),
                m0.handlers[ino] is Directory,
                ch == m0.handlers[ino].entries(),
                n == ch.len(),
                n + 2 <= usize::MAX,
                m0.next as int + n <= u64::MAX as int,
                i <= n,
                listing@.len() == n,
                forall|k: int|
                    0 <= k < n ==> (#[trigger] listing@[k]).0@ == ch[k].0 && listing@[k].1@
                        == ch[k].1,
                forall|k: int| 0 <= k < n ==> (#[trigger] ch[k]).1.wf(),
                self.model() == bind_all(m0, ino, ch.take(i as int)),
                self.model().next as int <= m0.next as int + i,
                entries@.len() == i + 2,
                forall|k: int|
                    0 <= k < i + 2 ==> readdir_entry_ok(
                        m0,
                        ino,
                        ch.take(i as int),
                        k,
                        #[trigger] entries@[k],
                    ),
            decreases n - i,
        {
            let ghost m_pre = self.model();
            let ghost prev_entries = entries@;
            let name_i = listing[i].0.clone();
            let child = listing[i].1.clone();
            let id = child.get_identity();
            let kind = child.get_type();
            let cino = self.get_ino_by_identity(id);
            self.ino_to_handler.insert(cino, child);
            self.ino_parent.insert(cino, ino);
            let cursor = i as u64 + 3;
            entries.push(DirEntry { ino: cino, next_offset: cursor, kind, name: name_i });
            proof {
                let t1 = ch.take(i + 1);
                assert(t1.drop_last() =~= ch.take(i as int));
                assert(t1.last() == ch[i as int]);
                lemma_bind_preserves_inv(m_pre, ino, ch[i as int].1);
                assert(self.model().handlers =~= bind(m_pre, ino, ch[i as int].1).handlers);
                assert(self.model().parents =~= bind(m_pre, ino, ch[i as int].1).parents);
                assert(self.model() =~= bind(m_pre, ino, ch[i as int].1));
                assert(self.model() == bind_all(m0, ino, t1));
                lemma_child_inos_len(m0, ino, ch.take(i as int));
                assert(child_inos(m0, ino, t1) == child_inos(m0, ino, ch.take(i as int)).push(
                    mint_ino(m_pre, ch[i as int].1.id()),
                ));
                assert(cino == child_inos(m0, ino, t1)[i as int]);
                assert forall|k: int|
                    0 <= k < i + 3 implies readdir_entry_ok(
                    m0,
                    ino,
                    t1,
                    k,
                    #[trigger] entries@[k],
                ) by {
                    if k < i + 2 {
                        assert(entries@[k] == prev_entries[k]);
                        assert(readdir_entry_ok(m0, ino, ch.take(i as int), k, prev_entries[k]));
                        if k >= 2 {
                            assert(t1[k - 2] == ch.take(i as int)[k - 2]);
                            assert(child_inos(m0, ino, t1)[k - 2] == child_inos(
                                m0,
                                ino,
                                ch.take(i as int),
                            )[k - 2]);
                        }
                    } else {
                        assert(entries@[k].ino == cino);
                        assert(t1[k - 2] == ch[i as int]);
                    }
                }
            }
            i = i + 1;
        }
        proof {
            assert(ch.take(n as int) =~= ch);
            assert(self.model() == spec_readdir_model(m0, ino));
            lemma_child_inos_len(m0, ino, ch);
        }
        let total = entries.len();
        let off: usize = if offset >= total as u64 {
            total
        } else {
            offset as usize
        };
        let ghost full = entries@;
        let tail = entries.split_off(off);
        proof {
            assert forall|k: int| 0 <= k < tail@.len() implies readdir_entry_ok(
                m0,
                ino,
                ch,
                offset + k,
                #[trigger] tail@[k],
            ) by {
                assert(tail@[k] == full[off + k]);
                assert(readdir_entry_ok(m0, ino, ch.take(n as int), off + k, full[off + k]));
            }
        }
        Ok(tail)
    }

    /// The attributes of the entry bound at `ino`, or `NoSuchEntry` if the
    /// inode is unbound. Directories report a fixed 4096-byte record; files
    /// report the size their capability returns, with blocks = size / 512.
    pub fn getattr(&self, ino: u64) -> (r: Result<FileAttributes, FsError>)
        ensures
            r == spec_getattr(self.model(), ino),
    {
        match self.ino_to_handler.get(&ino) {
            None => Err(FsError::NoSuchEntry),
            Some(h) => {
                proof {
                    h.lemma_view_shape();
                }
                match h {
                    PathHandler::Directory(_) => Ok(
                        FileAttributes {
                            ino,
                            size: 4096,
                            blocks: 8,
                            kind: EntryKind::Directory,
                            perm: 0o755,
                            nlink: 2,
                        },
                    ),
                    PathHandler::File(f) => {
                        let size = f.get_size();
                        Ok(
                            FileAttributes {
                                ino,
                                size,
                                blocks: size / 512,
                                kind: EntryKind::RegularFile,
                                perm: 0o755,
                                nlink: 1,
                            },
                        )
                    },
                }
            },
        }
    }
}


} // verus!
