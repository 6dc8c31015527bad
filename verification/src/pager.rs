//! The pager: a fixed-capacity cache of nodes over a file image.
//!
//! The pager is handed the backing file's bytes at open and gives back the
//! bytes to write at close; it never touches the file system itself.  Each
//! of its `TABLE_MAX_PAGES` slots is empty or holds one owned node.  A page
//! is materialized on demand: decoded from the file image when the file
//! holds it, created as a fresh empty leaf otherwise.  No page is ever
//! evicted.

use vstd::prelude::*;

use vstd::pervasive::unreached;

use crate::codec::{decode_node, encode_node, node_bytes, node_of_bytes, zeros};
use crate::node::{Node, NodeV};
use crate::{PAGE_SIZE, TABLE_MAX_PAGES};

verus! {

/// How the pager can fail.
#[derive(Debug, PartialEq, Eq, Structural, Clone, Copy)]
pub enum PagerError {
    /// A page number at or past the cache capacity was requested.
    OutOfBounds,
    /// The backing file could not be read.
    CouldNotRead,
    /// The backing file could not be written.
    CouldNotWrite,
    /// A row inside a page image carries a bad column length.
    CorruptRow,
    /// The file is no whole number of pages, or a page image is no valid
    /// leaf node.
    CorruptFile,
}

/// The page cache: the file image as read at open, one slot per page
/// number, and the number of pages the database currently has.
pub struct Pager {
    pub disk: Vec<u8>,
    pub pages: Vec<Option<Node>>,
    pub num_pages: usize,
}

impl Pager {
    /// Number of whole pages the file image holds.
    pub open spec fn disk_pages(self) -> int {
        self.disk@.len() as int / PAGE_SIZE as int
    }

    /// Whether page `i` is materialized in its slot.
    pub open spec fn resident(self, i: int) -> bool {
        0 <= i < self.pages@.len() && self.pages@[i] is Some
    }

    /// The node in slot `i`.
    pub open spec fn page_at(self, i: int) -> Node {
        self.pages@[i]->Some_0
    }

    /// The node that page `i` of the file image decodes to.
    pub open spec fn disk_node(self, i: int) -> Option<NodeV> {
        node_of_bytes(self.disk@.subrange(i * PAGE_SIZE, (i + 1) * PAGE_SIZE))
    }

    /// The pager invariant: a full slot array, a whole number of file
    /// pages within capacity, every resident node well formed, and no
    /// resident page at or past `num_pages`.
    pub open spec fn wf(self) -> bool {
        &&& self.pages@.len() == TABLE_MAX_PAGES
        &&& self.disk@.len() == self.disk_pages() * PAGE_SIZE
        &&& self.disk_pages() <= self.num_pages <= TABLE_MAX_PAGES
        &&& forall|i: int| #[trigger] self.resident(i) ==> self.page_at(i).wf()
        &&& forall|i: int|
            self.num_pages <= i < self.pages@.len() ==> !(#[trigger] self.resident(i))
    }

    /// Build a pager over the file bytes read at open.  The file must be a
    /// whole number of pages, and few enough of them to fit the cache.
    pub fn new(disk: Vec<u8>) -> (r: Result<Pager, PagerError>)
        ensures
            disk@.len() as int % (PAGE_SIZE as int) != 0 ==> r == Err::<Pager, PagerError>(
                PagerError::CorruptFile,
            ),
            disk@.len() as int % (PAGE_SIZE as int) == 0 && disk@.len() as int / (PAGE_SIZE as int)
                > TABLE_MAX_PAGES ==> r == Err::<Pager, PagerError>(PagerError::OutOfBounds),
            disk@.len() as int % (PAGE_SIZE as int) == 0 && disk@.len() as int / (PAGE_SIZE as int)
                <= TABLE_MAX_PAGES ==> match r {
                Ok(p) => {
                    &&& p.wf()
                    &&& p.disk@ == disk@
                    &&& p.num_pages == p.disk_pages()
                    &&& forall|i: int| 0 <= i < TABLE_MAX_PAGES ==> !(#[trigger] p.resident(i))
                },
                Err(_) => false,
            },
    {
        if disk.len() % PAGE_SIZE != 0 {
            return Err(PagerError::CorruptFile);
        }
        let np: usize = disk.len() / PAGE_SIZE;
        if np > TABLE_MAX_PAGES {
            return Err(PagerError::OutOfBounds);
        }
        let mut pages: Vec<Option<Node>> = Vec::new();
        let mut i: usize = 0;
        while i < TABLE_MAX_PAGES
            invariant
                i <= TABLE_MAX_PAGES,
                pages@.len() == i,
                forall|j: int| 0 <= j < i ==> pages@[j] is None,
            decreases TABLE_MAX_PAGES - i,
        {
            pages.push(None);
            i = i + 1;
        }
        let p = Pager { disk, pages, num_pages: np };
        proof {
            assert(p.disk@.len() == p.disk_pages() * PAGE_SIZE);
        }
        Ok(p)
    }

    /// Materialize the node for page `page_num`: decoded from the file
    /// image when the file holds that page, a fresh empty leaf otherwise.
    fn allocate_page(&self, page_num: usize) -> (r: Result<Node, PagerError>)
        requires
            self.wf(),
            page_num < TABLE_MAX_PAGES,
        ensures
            match r {
                Ok(n) => {
                    &&& n.wf()
                    &&& ((page_num as int) < self.disk_pages() ==> Some(n@) == self.disk_node(
                        page_num as int,
                    ))
                    &&& ((page_num as int) >= self.disk_pages() ==> n@.cells.len() == 0)
                },
                Err(e) => {
                    &&& e == PagerError::CorruptFile
                    &&& (page_num as int) < self.disk_pages()
                    &&& self.disk_node(page_num as int) is None
                },
            },
    {
        let dp: usize = self.disk.len() / PAGE_SIZE;
        proof {
            assert(dp * PAGE_SIZE == self.disk@.len());
        }
        if page_num < dp {
            proof {
                assert(self.disk@.subrange(
                    (page_num * PAGE_SIZE) as int,
                    (page_num * PAGE_SIZE) as int + PAGE_SIZE as int,
                ) =~= self.disk@.subrange(
                    page_num as int * PAGE_SIZE,
                    (page_num as int + 1) * PAGE_SIZE,
                ));
            }
            match decode_node(self.disk.as_slice(), page_num * PAGE_SIZE) {
                Ok(n) => Ok(n),
                Err(_) => Err(PagerError::CorruptFile),
            }
        } else {
            Ok(Node::create_leaf())
        }
    }

    /// Make page `page_num` resident: keep it if it already is, decode it
    /// from the file image if the file holds it, otherwise materialize a
    /// fresh empty leaf and grow `num_pages` over it.
    pub fn ensure_resident(&mut self, page_num: usize) -> (r: Result<(), PagerError>)
        requires
            old(self).wf(),
        ensures
            final(self).wf(),
            final(self).disk@ == old(self).disk@,
            final(self).num_pages >= old(self).num_pages,
            forall|j: int|
                0 <= j < TABLE_MAX_PAGES && j != page_num ==> final(self).pages@[j] == old(
                    self,
                ).pages@[j],
            match r {
                Ok(()) => {
                    &&& page_num < TABLE_MAX_PAGES
                    &&& final(self).resident(page_num as int)
                    &&& (old(self).resident(page_num as int) ==> *final(self) == *old(self))
                    &&& (!old(self).resident(page_num as int) && (page_num as int) < old(
                        self,
                    ).disk_pages() ==> Some(final(self).page_at(page_num as int)@) == old(
                        self,
                    ).disk_node(page_num as int) && final(self).num_pages == old(self).num_pages)
                    &&& (!old(self).resident(page_num as int) && (page_num as int) >= old(
                        self,
                    ).disk_pages() ==> final(self).page_at(page_num as int)@.cells.len() == 0
                        && final(self).num_pages == (if page_num + 1 > old(self).num_pages {
                        page_num + 1
                    } else {
                        old(self).num_pages as int
                    }))
                },
                Err(e) => {
                    &&& *final(self) == *old(self)
                    &&& (e == PagerError::OutOfBounds <==> page_num >= TABLE_MAX_PAGES)
                    &&& (page_num < TABLE_MAX_PAGES ==> e == PagerError::CorruptFile && !old(
                        self,
                    ).resident(page_num as int) && (page_num as int) < old(self).disk_pages()
                        && old(self).disk_node(page_num as int) is None)
                },
            },
    {
        if page_num >= TABLE_MAX_PAGES {
            return Err(PagerError::OutOfBounds);
        }
        if self.pages[page_num].is_some() {
            return Ok(());
        }
        let node: Node = match self.allocate_page(page_num) {
            Ok(n) => n,
            Err(e) => {
                return Err(e);
            },
        };
        self.pages[page_num] = Some(node);
        if page_num >= self.num_pages {
            self.num_pages = page_num + 1;
        }
        proof {
            assert forall|i: int| #[trigger] final(self).resident(i) implies final(self).page_at(
                i,
            ).wf() by {
                if i != page_num {
                    assert(old(self).resident(i));
                }
            }
            assert forall|i: int|
                self.num_pages <= i < self.pages@.len() implies !(#[trigger] self.resident(i)) by {
                assert(i != page_num);
                assert(self.pages@[i] == old(self).pages@[i]);
                assert(!old(self).resident(i));
            }
        }
        Ok(())
    }

    /// Borrow the resident page `page_num`.
    pub fn get_page(&self, page_num: usize) -> (n: &Node)
        requires
            self.wf(),
            self.resident(page_num as int),
        ensures
            *n == self.page_at(page_num as int),
    {
        match &self.pages[page_num] {
            Some(node) => node,
            None => {
                proof {
                    assert(false);
                }
                unreached()
            },
        }
    }

    /// Take the resident page `page_num` out of its slot, leaving the slot
    /// empty until `put_page` restores it.
    pub fn take_page(&mut self, page_num: usize) -> (n: Node)
        requires
            old(self).wf(),
            old(self).resident(page_num as int),
        ensures
            n == old(self).page_at(page_num as int),
            final(self).pages@ == old(self).pages@.update(page_num as int, None),
            final(self).disk@ == old(self).disk@,
            final(self).num_pages == old(self).num_pages,
    {
        let slot: &mut Option<Node> = &mut self.pages[page_num];
        let n = match slot.take() {
            Some(n) => n,
            None => {
                proof {
                    assert(false);
                }
                unreached()
            },
        };
        n
    }

    /// Put a node back into slot `page_num`.
    pub fn put_page(&mut self, page_num: usize, node: Node)
        requires
            page_num < old(self).pages@.len(),
        ensures
            final(self).pages@ == old(self).pages@.update(page_num as int, Some(node)),
            final(self).disk@ == old(self).disk@,
            final(self).num_pages == old(self).num_pages,
    {
        self.pages[page_num] = Some(node);
    }

    /// The `PAGE_SIZE` bytes that page `i` contributes to the closed file:
    /// the resident node's image, else the bytes the file already held,
    /// else zeros for a page that was counted but never materialized.
    pub open spec fn page_image(self, i: int) -> Seq<u8> {
        if self.resident(i) {
            node_bytes(self.page_at(i)@)
        } else if i < self.disk_pages() {
            self.disk@.subrange(i * PAGE_SIZE, (i + 1) * PAGE_SIZE)
        } else {
            zeros(PAGE_SIZE as int)
        }
    }

    /// Append page `page_num`'s bytes to the file image being built.
    pub fn flush_page(&self, page_num: usize, out: &mut Vec<u8>)
        requires
            self.wf(),
            page_num < TABLE_MAX_PAGES,
        ensures
            final(out)@ == old(out)@ + self.page_image(page_num as int),
            final(out)@.len() == old(out)@.len() + PAGE_SIZE,
    {
        let ghost base = out@;
        match &self.pages[page_num] {
            Some(node) => {
                proof {
                    assert(self.resident(page_num as int));
                    crate::codec::lemma_node_bytes_len(node@);
                }
                encode_node(node, out);
            },
            None => {
                let dp: usize = self.disk.len() / PAGE_SIZE;
                proof {
                    assert(dp * PAGE_SIZE == self.disk@.len());
                }
                if page_num < dp {
                    let off: usize = page_num * PAGE_SIZE;
                    let mut i: usize = 0;
                    while i < PAGE_SIZE
                        invariant
                            i <= PAGE_SIZE,
                            off == page_num * PAGE_SIZE,
                            (page_num as int + 1) * PAGE_SIZE <= self.disk@.len(),
                            out@ == base + self.disk@.subrange(off as int, off as int + i as int),
                        decreases PAGE_SIZE - i,
                    {
                        out.push(self.disk[off + i]);
                        i = i + 1;
                        proof {
                            assert(out@ =~= base + self.disk@.subrange(
                                off as int,
                                off as int + i as int,
                            ));
                        }
                    }
                    proof {
                        assert(self.disk@.subrange(off as int, off as int + PAGE_SIZE as int)
                            =~= self.disk@.subrange(
                            page_num as int * PAGE_SIZE,
                            (page_num as int + 1) * PAGE_SIZE,
                        ));
                    }
                } else {
                    let mut i: usize = 0;
                    while i < PAGE_SIZE
                        invariant
                            i <= PAGE_SIZE,
                            out@ == base + zeros(i as int),
                        decreases PAGE_SIZE - i,
                    {
                        out.push(0u8);
                        i = i + 1;
                        proof {
                            assert(out@ =~= base + zeros(i as int));
                        }
                    }
                    proof {
                        assert(zeros(PAGE_SIZE as int).len() == PAGE_SIZE);
                    }
                }
            },
        }
    }

    /// Serialize the whole database: every page in `[0, num_pages)`, each
    /// at its natural offset, resident pages freshly encoded and the rest
    /// carried over.  The result is always a whole number of pages.
    pub fn close_image(&self) -> (out: Vec<u8>)
        requires
            self.wf(),
        ensures
            out@.len() == self.num_pages * PAGE_SIZE,
            out@.len() as int % (PAGE_SIZE as int) == 0,
            forall|i: int|
                0 <= i < self.num_pages ==> #[trigger] out@.subrange(
                    i * PAGE_SIZE,
                    (i + 1) * PAGE_SIZE,
                ) == self.page_image(i),
    {
        let mut out: Vec<u8> = Vec::new();
        let mut p: usize = 0;
        while p < self.num_pages
            invariant
                p <= self.num_pages,
                self.wf(),
                out@.len() == p * PAGE_SIZE,
                forall|i: int|
                    0 <= i < p ==> #[trigger] out@.subrange(i * PAGE_SIZE, (i + 1) * PAGE_SIZE)
                        == self.page_image(i),
            decreases self.num_pages - p,
        {
            let ghost pre = out@;
            self.flush_page(p, &mut out);
            proof {
                assert forall|i: int| 0 <= i < p + 1 implies #[trigger] out@.subrange(
                    i * PAGE_SIZE,
                    (i + 1) * PAGE_SIZE,
                ) == self.page_image(i) by {
                    if i < p {
                        assert(out@.subrange(i * PAGE_SIZE, (i + 1) * PAGE_SIZE) =~= pre.subrange(
                            i * PAGE_SIZE,
                            (i + 1) * PAGE_SIZE,
                        ));
                    } else {
                        assert(out@.subrange(i * PAGE_SIZE, (i + 1) * PAGE_SIZE) =~= self
                            .page_image(i));
                    }
                }
            }
            p = p + 1;
        }
        out
    }
}

/// Every resident node of a well-formed pager keeps the node invariant:
/// its cell count stays within `LEAF_NODE_MAX_CELLS` and its keys strictly
/// increase across the used cells.
pub proof fn lemma_resident_node_invariant(p: Pager, i: int)
    requires
        p.wf(),
        p.resident(i),
    ensures
        p.page_at(i).wf(),
        p.page_at(i)@.cells.len() <= crate::LEAF_NODE_MAX_CELLS,
        p.page_at(i)@.sorted(),
{
}

} // verus!
