use vstd::prelude::*;

use crate::identity::ItemIdentity;
use std::rc::Rc;

verus! {

/// The kernel-visible kind of one tree entry.
#[derive(Debug, Clone, Copy, PartialEq, Eq, Structural)]
pub enum EntryKind {
    RegularFile,
    Directory,
}

/// The mathematical shape of one tree entry: its identity token, and either
/// the size a file reports or the named children of a directory, in listing
/// order. All executable handler operations are specified against this view.
#[verifier::ext_equal]
pub enum HandlerView {
    File { id: u64, size: u64 },
    Directory { id: u64, entries: Seq<(Seq<char>, HandlerView)> },
}

impl HandlerView {
    /// The identity token of the entry.
    pub open spec fn id(self) -> u64 {
        match self {
            HandlerView::File { id, .. } => id,
            HandlerView::Directory { id, .. } => id,
        }
    }

    /// The kernel-visible kind of the entry.
    pub open spec fn kind(self) -> EntryKind {
        match self {
            HandlerView::File { .. } => EntryKind::RegularFile,
            HandlerView::Directory { .. } => EntryKind::Directory,
        }
    }

    /// The size a file entry reports; directories synthesize a fixed size
    /// elsewhere, so it is immaterial here.
    pub open spec fn size(self) -> u64 {
        match self {
            HandlerView::File { size, .. } => size,
            HandlerView::Directory { .. } => 0,
        }
    }

    /// The named children of a directory entry; a file has none.
    pub open spec fn entries(self) -> Seq<(Seq<char>, HandlerView)> {
        match self {
            HandlerView::File { .. } => Seq::empty(),
            HandlerView::Directory { entries, .. } => entries,
        }
    }

    /// Well-formed entry: files always are; in a directory, sibling names
    /// are unique, there is room to list the directory together with its two
    /// self-references, and every child is well-formed in turn.
    pub open spec fn wf(self) -> bool
        decreases self,
    {
        match self {
            HandlerView::File { .. } => true,
            HandlerView::Directory { entries, .. } => {
                &&& entries.len() + 2 <= usize::MAX
                &&& (forall|i: int, j: int|
                    0 <= i < j < entries.len() ==> entries[i].0 != entries[j].0)
                &&& (forall|i: int|
                    0 <= i < entries.len() ==> (#[trigger] entries[i]).1.wf())
            },
        }
    }
}

/// The position of the child named `name` in `entries`, or -1 if no child
/// carries that name. When sibling names are unique this is the only match.
pub open spec fn find_index(entries: Seq<(Seq<char>, HandlerView)>, name: Seq<char>) -> int
    decreases entries.len(),
{
    if entries.len() == 0 {
        -1
    } else if entries[0].0 == name {
        0
    } else {
        let rest = find_index(entries.skip(1), name);
        if rest == -1 {
            -1
        } else {
            rest + 1
        }
    }
}

/// The child of `entries` named `name`, if any.
pub open spec fn find_child(
    entries: Seq<(Seq<char>, HandlerView)>,
    name: Seq<char>,
) -> Option<HandlerView> {
    let i = find_index(entries, name);
    if i == -1 {
        None
    } else {
        Some(entries[i].1)
    }
}

/// `find_index` returns -1 exactly when no entry matches, and otherwise the
/// position of the first match.
pub proof fn lemma_find_index(entries: Seq<(Seq<char>, HandlerView)>, name: Seq<char>)
    ensures
        ({
            let r = find_index(entries, name);
            &&& (r == -1 <==> (forall|k: int| 0 <= k < entries.len() ==> entries[k].0 != name))
            &&& (r != -1 ==> 0 <= r < entries.len() && entries[r].0 == name && (forall|k: int|
                0 <= k < r ==> entries[k].0 != name))
        }),
    decreases entries.len(),
{
    if entries.len() > 0 && entries[0].0 != name {
        lemma_find_index(entries.skip(1), name);
        assert(forall|k: int| 1 <= k < entries.len() ==> entries[k] == entries.skip(1)[k - 1]);
    }
}

/// `new_entries` is `old_entries` with `name` bound to `child`: the first
/// entry of that name replaced in place, or, when the name is new, the pair
/// appended at the end.
pub open spec fn upserted(
    old_entries: Seq<(Seq<char>, HandlerView)>,
    name: Seq<char>,
    child: HandlerView,
    new_entries: Seq<(Seq<char>, HandlerView)>,
) -> bool {
    let idx = find_index(old_entries, name);
    if idx == -1 {
        new_entries =~= old_entries.push((name, child))
    } else {
        new_entries =~= old_entries.update(idx, (name, child))
    }
}

/// Binding a name in a well-formed directory to a well-formed child keeps
/// the directory well-formed.
pub proof fn lemma_upsert_wf(
    v: HandlerView,
    name: Seq<char>,
    child: HandlerView,
    new_entries: Seq<(Seq<char>, HandlerView)>,
)
    requires
        v.wf(),
        v is Directory,
        child.wf(),
        v.entries().len() + 3 <= usize::MAX,
        upserted(v.entries(), name, child, new_entries),
    ensures
        (HandlerView::Directory { id: v.id(), entries: new_entries }).wf(),
{
    let old_entries = v.entries();
    lemma_find_index(old_entries, name);
    let idx = find_index(old_entries, name);
    assert forall|i: int, j: int|
        0 <= i < j < new_entries.len() implies new_entries[i].0 != new_entries[j].0 by {
        if idx == -1 {
            if j < old_entries.len() {
                assert(old_entries[i].0 != old_entries[j].0);
            } else {
                assert(old_entries[i].0 != name);
            }
        } else {
            if i != idx && j != idx {
                assert(old_entries[i].0 != old_entries[j].0);
            } else if i == idx {
                assert(old_entries[j].0 != old_entries[idx].0);
            } else {
                assert(old_entries[i].0 != old_entries[idx].0);
            }
        }
    }
    assert forall|i: int| 0 <= i < new_entries.len() implies (#[trigger] new_entries[i]).1.wf() by {
        if idx == -1 && i < old_entries.len() {
            assert(old_entries[i].1.wf());
        } else if idx != -1 && i != idx {
            assert(old_entries[i].1.wf());
        }
    }
}

/// The capability a file entry supplies: report its current size in bytes.
///
/// Implementations are expected to be cheap and non-blocking, since every
/// protocol call is answered synchronously. This is the only obligation of a
/// file entry; byte-level reads and writes are outside the router's scope.
pub trait FileHandler: Sized {
    /// The size, in bytes, that this handler stands for.
    spec fn size_spec(&self) -> u64;

    /// Report the current size in bytes.
    fn get_size(&self) -> (r: u64)
        ensures
            r == self.size_spec(),
    ;
}

/// A size-reporting capability that always reports the same fixed size.
#[derive(Debug, Clone, Copy, PartialEq, Eq, Structural)]
pub struct FixedSizeFile {
    size: u64,
}

impl FixedSizeFile {
    pub fn new(size: u64) -> (f: FixedSizeFile)
        ensures
            f.size_spec() == size,
    {
        FixedSizeFile { size }
    }
}

impl FileHandler for FixedSizeFile {
    closed spec fn size_spec(&self) -> u64 {
        self.size
    }

    fn get_size(&self) -> (r: u64) {
        self.size
    }
}

/// A file entry of the handler tree: an identity plus a shared reference to
/// its size-reporting implementation, so one implementation can back several
/// entries without duplication.
#[derive(Debug)]
pub struct File<F: FileHandler> {
    identity: ItemIdentity,
    implementation: Rc<F>,
}

/// A directory entry of the handler tree: an identity plus an enumerable
/// mapping from unique child names to child handlers.
#[derive(Debug)]
pub struct DirectoryListing<F: FileHandler> {
    identity: ItemIdentity,
    items: Vec<(String, PathHandler<F>)>,
}

/// One entry of the handler tree, either a file or a directory.
#[derive(Debug)]
pub enum PathHandler<F: FileHandler> {
    File(File<F>),
    Directory(DirectoryListing<F>),
}

/// The view of one handler.
pub closed spec fn handler_view<F: FileHandler>(h: PathHandler<F>) -> HandlerView
    decreases h,
{
    match h {
        PathHandler::File(f) => HandlerView::File {
            id: f.identity.value(),
            size: (*f.implementation).size_spec(),
        },
        PathHandler::Directory(d) => HandlerView::Directory {
            id: d.identity.value(),
            entries: items_view(d.items@),
        },
    }
}

/// The views of a directory's (name, child) pairs, in listing order.
pub closed spec fn items_view<F: FileHandler>(
    items: Seq<(String, PathHandler<F>)>,
) -> Seq<(Seq<char>, HandlerView)>
    decreases items,
{
    if items.len() == 0 {
        Seq::empty()
    } else {
        items_view(items.drop_last()).push((items.last().0@, handler_view(items.last().1)))
    }
}

/// `items_view` maps the pairs pointwise.
proof fn lemma_items_view<F: FileHandler>(items: Seq<(String, PathHandler<F>)>)
    ensures
        items_view(items).len() == items.len(),
        forall|i: int|
            0 <= i < items.len() ==> #[trigger] items_view(items)[i] == (
                items[i].0@,
                handler_view(items[i].1),
            ),
    decreases items.len(),
{
    if items.len() > 0 {
        lemma_items_view(items.drop_last());
    }
}

impl<F: FileHandler> View for PathHandler<F> {
    type V = HandlerView;

    open spec fn view(&self) -> HandlerView {
        handler_view(*self)
    }
}

impl<F: FileHandler> View for File<F> {
    type V = HandlerView;

    open spec fn view(&self) -> HandlerView {
        handler_view(PathHandler::File(*self))
    }
}

impl<F: FileHandler> View for DirectoryListing<F> {
    type V = HandlerView;

    open spec fn view(&self) -> HandlerView {
        handler_view(PathHandler::Directory(*self))
    }
}

/// The view of a directory listing is always a Directory entry.
pub proof fn lemma_listing_view_is_directory<F: FileHandler>(d: DirectoryListing<F>)
    ensures
        d@ is Directory,
        d@.kind() == EntryKind::Directory,
{
}

impl<F: FileHandler> File<F> {
    /// Wrap a size-reporting implementation as a file entry with a fresh
    /// identity.
    pub fn from_impl(implementation: F) -> (f: File<F>)
        ensures
            f@.kind() == EntryKind::RegularFile,
            f@.size() == implementation.size_spec(),
    {
        File { identity: ItemIdentity::new(), implementation: Rc::new(implementation) }
    }

    /// Report the current size in bytes of this entry.
    pub fn get_size(&self) -> (r: u64)
        ensures
            r == self@.size(),
    {
        self.implementation.get_size()
    }

    /// This entry's identity token.
    pub fn get_identity(&self) -> (r: ItemIdentity)
        ensures
            r.value() == self@.id(),
    {
        self.identity
    }
}

/// Relies on Rc::clone: the result is a new handle to the same shared value.
#[verifier::external_body]
fn share<F>(rc: &Rc<F>) -> (r: Rc<F>)
    ensures
        r == *rc,
{
    Rc::clone(rc)
}

impl<F: FileHandler> Clone for File<F> {
    fn clone(&self) -> (r: Self)
        ensures
            r@ == self@,
    {
        File { identity: self.identity, implementation: share(&self.implementation) }
    }
}

fn clone_handler<F: FileHandler>(h: &PathHandler<F>) -> (r: PathHandler<F>)
    ensures
        r@ == h@,
    decreases *h,
{
    match h {
        PathHandler::File(f) => PathHandler::File(f.clone()),
        PathHandler::Directory(d) => PathHandler::Directory(clone_listing(d)),
    }
}

fn clone_listing<F: FileHandler>(d: &DirectoryListing<F>) -> (r: DirectoryListing<F>)
    ensures
        r@ == d@,
    decreases *d,
{
    let mut items: Vec<(String, PathHandler<F>)> = Vec::new();
    let n = d.items.len();
    let mut i: usize = 0;
    while i < n
        invariant
            n == d.items@.len(),
            i <= n,
            items@.len() == i,
            forall|k: int|
                0 <= k < i ==> (#[trigger] items@[k]).0@ == d.items@[k].0@ && items@[k].1@
                    == d.items@[k].1@,
        decreases n - i,
    {
        let name = d.items[i].0.clone();
        let child = clone_handler(&d.items[i].1);
        items.push((name, child));
        i = i + 1;
    }
    let r = DirectoryListing { identity: d.identity, items };
    proof {
        lemma_items_view(r.items@);
        lemma_items_view(d.items@);
        assert(r@.entries() =~= d@.entries());
        assert(r@ =~= d@);
    }
    r
}

impl<F: FileHandler> Clone for PathHandler<F> {
    fn clone(&self) -> (r: Self)
        ensures
            r@ == self@,
    {
        clone_handler(self)
    }
}

impl<F: FileHandler> Clone for DirectoryListing<F> {
    fn clone(&self) -> (r: Self)
        ensures
            r@ == self@,
    {
        clone_listing(self)
    }
}

impl<F: FileHandler> PathHandler<F> {
    /// How each variant of a handler shows up in its view.
    pub proof fn lemma_view_shape(&self)
        ensures
            (*self matches PathHandler::File(f) ==> self@ == f@ && f@ is File),
            (*self matches PathHandler::Directory(d) ==> self@ == d@ && d@ is Directory),
    {
    }

    /// The kernel-visible kind of this entry.
    pub fn get_type(&self) -> (k: EntryKind)
        ensures
            k == self@.kind(),
    {
        match self {
            PathHandler::File(_) => EntryKind::RegularFile,
            PathHandler::Directory(_) => EntryKind::Directory,
        }
    }

    /// The identity token of this entry.
    pub fn get_identity(&self) -> (r: ItemIdentity)
        ensures
            r.value() == self@.id(),
    {
        match self {
            PathHandler::File(f) => f.get_identity(),
            PathHandler::Directory(d) => d.get_identity(),
        }
    }
}

impl<F: FileHandler> DirectoryListing<F> {
    /// An empty directory with a fresh identity.
    pub fn new() -> (d: DirectoryListing<F>)
        ensures
            d@.kind() == EntryKind::Directory,
            d@.entries() == Seq::<(Seq<char>, HandlerView)>::empty(),
            d@.wf(),
    {
        let d = DirectoryListing { identity: ItemIdentity::new(), items: Vec::new() };
        proof {
            assert(d@.entries() =~= Seq::<(Seq<char>, HandlerView)>::empty());
        }
        d
    }

    /// This entry's identity token.
    pub fn get_identity(&self) -> (r: ItemIdentity)
        ensures
            r.value() == self@.id(),
    {
        self.identity
    }

    /// How many children this directory has.
    pub fn child_count(&self) -> (n: usize)
        ensures
            n == self@.entries().len(),
    {
        proof {
            lemma_items_view(self.items@);
        }
        self.items.len()
    }

    /// The current (name, child) pairs of this directory, in listing order,
    /// as defensive copies so callers cannot mutate the tree.
    pub fn listdir(&self) -> (r: Vec<(String, PathHandler<F>)>)
        ensures
            r@.len() == self@.entries().len(),
            forall|i: int|
                0 <= i < r@.len() ==> (#[trigger] r@[i]).0@ == self@.entries()[i].0 && r@[i].1@
                    == self@.entries()[i].1,
    {
        let mut items: Vec<(String, PathHandler<F>)> = Vec::new();
        let n = self.items.len();
        let mut i: usize = 0;
        while i < n
            invariant
                n == self.items@.len(),
                i <= n,
                items@.len() == i,
                forall|k: int|
                    0 <= k < i ==> (#[trigger] items@[k]).0@ == self.items@[k].0@ && items@[k].1@
                        == self.items@[k].1@,
            decreases n - i,
        {
            let name = self.items[i].0.clone();
            let child = clone_handler(&self.items[i].1);
            items.push((name, child));
            i = i + 1;
        }
        proof {
            lemma_items_view(self.items@);
        }
        items
    }

    /// The child bound to `name` in this directory, by exact, case-sensitive
    /// comparison, as a defensive copy; `None` if no child carries the name.
    pub fn get_child(&self, name: &str) -> (r: Option<PathHandler<F>>)
        ensures
            ({
                let fc = find_child(self@.entries(), name@);
                match r {
                    None => fc is None,
                    Some(c) => Some(c@) == fc,
                }
            }),
    {
        let name_owned: String = name.to_owned();
        let n = self.items.len();
        let mut i: usize = 0;
        proof {
            lemma_items_view(self.items@);
        }
        while i < n
            invariant
                n == self.items@.len(),
                self@.entries() == items_view(self.items@),
                self@.entries().len() == n,
                i <= n,
                name_owned@ == name@,
                forall|k: int| 0 <= k < i ==> self@.entries()[k].0 != name@,
            decreases n - i,
        {
            proof {
                lemma_items_view(self.items@);
            }
            if self.items[i].0 == name_owned {
                proof {
                    lemma_find_index(self@.entries(), name@);
                    assert(self@.entries()[i as int].0 == name@);
                    assert(find_index(self@.entries(), name@) == i);
                }
                return Some(clone_handler(&self.items[i].1));
            }
            i = i + 1;
        }
        proof {
            lemma_find_index(self@.entries(), name@);
        }
        None
    }

    /// Bind `name` to `child` in this directory: replace the existing child
    /// of that name (last write wins, not an error), or append a new entry.
    fn add_entry(self, name: &str, child: PathHandler<F>) -> (r: Self)
        requires
            self@.wf(),
            child@.wf(),
            self@.entries().len() + 3 <= usize::MAX,
        ensures
            r@.wf(),
            r@.id() == self@.id(),
            r@.kind() == EntryKind::Directory,
            upserted(self@.entries(), name@, child@, r@.entries()),
    {
        let ghost old_view = self@;
        let name_owned: String = name.to_owned();
        let mut s = self;
        let n = s.items.len();
        let mut i: usize = 0;
        proof {
            lemma_items_view(s.items@);
        }
        while i < n
            invariant
                s == self,
                old_view == self@,
                old_view.wf(),
                old_view is Directory,
                old_view.entries() == items_view(s.items@),
                old_view.entries().len() + 3 <= usize::MAX,
                child@.wf(),
                n == s.items@.len(),
                i <= n,
                name_owned@ == name@,
                forall|k: int| 0 <= k < i ==> old_view.entries()[k].0 != name@,
            decreases n - i,
        {
            proof {
                lemma_items_view(s.items@);
            }
            if s.items[i].0 == name_owned {
                proof {
                    lemma_find_index(old_view.entries(), name@);
                    assert(old_view.entries()[i as int].0 == name@);
                    assert(find_index(old_view.entries(), name@) == i);
                }
                s.items.set(i, (name_owned, child));
                proof {
                    lemma_items_view(s.items@);
                    assert(s@.entries() =~= old_view.entries().update(i as int, (name@, child@)));
                    lemma_upsert_wf(old_view, name@, child@, s@.entries());
                    assert(s@ == (HandlerView::Directory {
                        id: old_view.id(),
                        entries: s@.entries(),
                    }));
                }
                return s;
            }
            i = i + 1;
        }
        proof {
            lemma_find_index(old_view.entries(), name@);
            assert(find_index(old_view.entries(), name@) == -1);
        }
        s.items.push((name_owned, child));
        proof {
            lemma_items_view(s.items@);
            assert(s.items@.drop_last() =~= self.items@);
            assert(s@.entries() =~= old_view.entries().push((name@, child@)));
            lemma_upsert_wf(old_view, name@, child@, s@.entries());
            assert(s@ == (HandlerView::Directory { id: old_view.id(), entries: s@.entries() }));
        }
        s
    }

    /// Attach a File child bound to `name`, wrapping `file` with a fresh
    /// identity; overwrites any existing child with the same name. Builder
    /// style; chains.
    pub fn add_file(self, name: &str, file: F) -> (r: Self)
        requires
            self@.wf(),
            self@.entries().len() + 3 <= usize::MAX,
        ensures
            r@.wf(),
            r@.id() == self@.id(),
            r@.kind() == EntryKind::Directory,
            exists|idy: u64|
                upserted(
                    self@.entries(),
                    name@,
                    HandlerView::File { id: idy, size: file.size_spec() },
                    r@.entries(),
                ),
    {
        let f = File::from_impl(file);
        let ghost fview = f@;
        let r = self.add_entry(name, PathHandler::File(f));
        proof {
            assert(upserted(self@.entries(), name@, fview, r@.entries()));
            assert(fview == (HandlerView::File { id: fview.id(), size: file.size_spec() }));
        }
        r
    }

    /// Attach a Directory child bound to `name`; overwrites any existing
    /// child with the same name. Builder style; chains.
    pub fn add_dir(self, name: &str, dir: DirectoryListing<F>) -> (r: Self)
        requires
            self@.wf(),
            dir@.wf(),
            self@.entries().len() + 3 <= usize::MAX,
        ensures
            r@.wf(),
            r@.id() == self@.id(),
            r@.kind() == EntryKind::Directory,
            upserted(self@.entries(), name@, dir@, r@.entries()),
    {
        self.add_entry(name, PathHandler::Directory(dir))
    }
}

} // verus!
