use vstd::prelude::*;
use vstd::utf8::encode_utf8;
use crate::vfs::{FileType, Metadata, VfsError};

verus! {

// ---------------------------------------------------------------------------
// Name order
// ---------------------------------------------------------------------------

/// Lexicographic order on byte strings: the order in which `str` values compare.
pub open spec fn bytes_lt(a: Seq<u8>, b: Seq<u8>) -> bool
    decreases a.len(),
{
    if a.len() == 0 {
        b.len() > 0
    } else if b.len() == 0 {
        false
    } else if a[0] != b[0] {
        a[0] < b[0]
    } else {
        bytes_lt(a.drop_first(), b.drop_first())
    }
}

/// Order of directory entry names: by their UTF-8 bytes.
pub open spec fn name_lt(a: Seq<char>, b: Seq<char>) -> bool {
    bytes_lt(encode_utf8(a), encode_utf8(b))
}

pub proof fn lemma_bytes_lt_irreflexive(a: Seq<u8>)
    ensures
        !bytes_lt(a, a),
    decreases a.len(),
{
    if a.len() > 0 {
        lemma_bytes_lt_irreflexive(a.drop_first());
    }
}

pub proof fn lemma_bytes_lt_asymmetric(a: Seq<u8>, b: Seq<u8>)
    requires
        bytes_lt(a, b),
    ensures
        !bytes_lt(b, a),
    decreases a.len(),
{
    if a.len() > 0 && b.len() > 0 && a[0] == b[0] {
        lemma_bytes_lt_asymmetric(a.drop_first(), b.drop_first());
    }
}

pub proof fn lemma_bytes_lt_transitive(a: Seq<u8>, b: Seq<u8>, c: Seq<u8>)
    requires
        bytes_lt(a, b),
        bytes_lt(b, c),
    ensures
        bytes_lt(a, c),
    decreases a.len(),
{
    if a.len() > 0 && b.len() > 0 && c.len() > 0 && a[0] == b[0] && b[0] == c[0] {
        lemma_bytes_lt_transitive(a.drop_first(), b.drop_first(), c.drop_first());
    }
}

pub proof fn lemma_name_lt_transitive(a: Seq<char>, b: Seq<char>, c: Seq<char>)
    requires
        name_lt(a, b),
        name_lt(b, c),
    ensures
        name_lt(a, c),
{
    lemma_bytes_lt_transitive(encode_utf8(a), encode_utf8(b), encode_utf8(c));
}

pub proof fn lemma_name_lt_irreflexive(a: Seq<char>)
    ensures
        !name_lt(a, a),
{
    lemma_bytes_lt_irreflexive(encode_utf8(a));
}

/// Result of comparing two names.
#[derive(Debug, Clone, Copy, PartialEq, Eq, Structural)]
pub enum NameOrder {
    Less,
    Equal,
    Greater,
}

/// Compares two byte strings lexicographically.
pub fn compare_bytes(a: &[u8], b: &[u8]) -> (r: NameOrder)
    ensures
        (r == NameOrder::Less) == bytes_lt(a@, b@),
        (r == NameOrder::Equal) == (a@ == b@),
        (r == NameOrder::Greater) == bytes_lt(b@, a@),
{
    let mut i: usize = 0;
    proof {
        assert(a@.skip(0) =~= a@);
        assert(b@.skip(0) =~= b@);
    }
    while i < a.len() && i < b.len()
        invariant
            i <= a.len(),
            i <= b.len(),
            a@.subrange(0, i as int) == b@.subrange(0, i as int),
            bytes_lt(a@, b@) == bytes_lt(a@.skip(i as int), b@.skip(i as int)),
            bytes_lt(b@, a@) == bytes_lt(b@.skip(i as int), a@.skip(i as int)),
        decreases a.len() - i,
    {
        if a[i] < b[i] {
            proof {
                lemma_bytes_lt_asymmetric(a@, b@);
                assert(a@[i as int] != b@[i as int]);
            }
            return NameOrder::Less;
        }
        if a[i] > b[i] {
            proof {
                lemma_bytes_lt_asymmetric(b@, a@);
                assert(a@[i as int] != b@[i as int]);
            }
            return NameOrder::Greater;
        }
        proof {
            assert(a@.skip(i as int).drop_first() =~= a@.skip(i as int + 1));
            assert(b@.skip(i as int).drop_first() =~= b@.skip(i as int + 1));
            assert(a@.subrange(0, i as int + 1) =~= a@.subrange(0, i as int).push(a@[i as int]));
            assert(b@.subrange(0, i as int + 1) =~= b@.subrange(0, i as int).push(b@[i as int]));
        }
        i = i + 1;
    }
    if a.len() == b.len() {
        proof {
            assert(a@ =~= a@.subrange(0, i as int));
            assert(b@ =~= b@.subrange(0, i as int));
            lemma_bytes_lt_irreflexive(a@);
        }
        NameOrder::Equal
    } else if a.len() < b.len() {
        proof {
            assert(a@.len() != b@.len());
        }
        NameOrder::Less
    } else {
        proof {
            assert(a@.len() != b@.len());
        }
        NameOrder::Greater
    }
}

/// Compares two names by their UTF-8 bytes.
pub fn compare_names(a: &str, b: &str) -> (r: NameOrder)
    ensures
        (r == NameOrder::Less) == name_lt(a@, b@),
        (r == NameOrder::Equal) == (a@ == b@),
        (r == NameOrder::Greater) == name_lt(b@, a@),
{
    let r = compare_bytes(a.as_bytes(), b.as_bytes());
    proof {
        vstd::utf8::encode_utf8_decode_utf8(a@);
        vstd::utf8::encode_utf8_decode_utf8(b@);
    }
    r
}

// ---------------------------------------------------------------------------
// Model
// ---------------------------------------------------------------------------

/// Handle of an inode of a `RamFs`.
pub type NodeId = usize;

/// What an inode holds: a file's bytes, or a directory's entries (name and inode),
/// in increasing name order.
pub enum NodeModel {
    File(Seq<u8>),
    Directory(Seq<(Seq<char>, nat)>),
}

/// Entries in strictly increasing name order (so no name occurs twice).
pub open spec fn entries_sorted(e: Seq<(Seq<char>, nat)>) -> bool {
    forall|i: int, j: int| 0 <= i < j < e.len() ==> name_lt(#[trigger] e[i].0, #[trigger] e[j].0)
}

/// The inode that the first entry called `name` refers to.
pub open spec fn dir_lookup(e: Seq<(Seq<char>, nat)>, name: Seq<char>) -> Option<nat>
    decreases e.len(),
{
    if e.len() == 0 {
        None
    } else if e[0].0 == name {
        Some(e[0].1)
    } else {
        dir_lookup(e.drop_first(), name)
    }
}

/// `e` with the entry `(name, node)` put in its place by name order.
pub open spec fn sorted_insert(e: Seq<(Seq<char>, nat)>, name: Seq<char>, node: nat) -> Seq<(Seq<char>, nat)>
    decreases e.len(),
{
    if e.len() == 0 {
        seq![(name, node)]
    } else if name_lt(e[0].0, name) {
        seq![e[0]] + sorted_insert(e.drop_first(), name, node)
    } else {
        seq![(name, node)] + e
    }
}

/// How many bytes a read of `n` bytes at `offset` delivers from `content`.
pub open spec fn read_count(content: Seq<u8>, offset: int, n: int) -> int {
    if offset >= content.len() {
        0
    } else if n < content.len() - offset {
        n
    } else {
        content.len() - offset
    }
}

/// The bytes that a read of `n` bytes at `offset` delivers from `content`.
pub open spec fn file_read(content: Seq<u8>, offset: int, n: int) -> Seq<u8> {
    if offset >= content.len() {
        Seq::empty()
    } else {
        content.subrange(offset, offset + read_count(content, offset, n))
    }
}

/// `content` grown with zero bytes to at least `len` bytes.
pub open spec fn zero_extend(content: Seq<u8>, len: int) -> Seq<u8> {
    if len > content.len() {
        content + Seq::new((len - content.len()) as nat, |i: int| 0u8)
    } else {
        content
    }
}

/// The file content after `data` is written at `offset`.
pub open spec fn file_write(content: Seq<u8>, offset: int, data: Seq<u8>) -> Seq<u8> {
    let end = offset + data.len();
    let grown = zero_extend(content, end);
    grown.subrange(0, offset) + data + grown.subrange(end, grown.len() as int)
}

// ---------------------------------------------------------------------------
// Laws
// ---------------------------------------------------------------------------

/// Byte strings are ordered by their first difference: a string comes before every
/// string that shares a prefix with it and then has a numerically larger byte, whatever
/// follows in either.
pub proof fn lemma_bytes_lt_first_difference(p: Seq<u8>, x: u8, y: u8, s: Seq<u8>, t: Seq<u8>)
    requires
        x < y,
    ensures
        bytes_lt(p.push(x) + s, p.push(y) + t),
    decreases p.len(),
{
    let a = p.push(x) + s;
    let b = p.push(y) + t;
    if p.len() > 0 {
        let q = p.drop_first();
        assert(a.drop_first() =~= q.push(x) + s);
        assert(b.drop_first() =~= q.push(y) + t);
        assert(a[0] == p[0] && b[0] == p[0]);
        lemma_bytes_lt_first_difference(q, x, y, s, t);
    } else {
        assert(a[0] == x && b[0] == y);
    }
}

/// A byte string comes before every longer string that it begins.
pub proof fn lemma_bytes_lt_proper_prefix(a: Seq<u8>, s: Seq<u8>)
    requires
        s.len() > 0,
    ensures
        bytes_lt(a, a + s),
    decreases a.len(),
{
    if a.len() > 0 {
        assert((a + s).drop_first() =~= a.drop_first() + s);
        assert((a + s)[0] == a[0]);
        lemma_bytes_lt_proper_prefix(a.drop_first(), s);
    }
}

/// A read from within a file delivers as many bytes as both the buffer and the rest of
/// the file allow, and those are the file's bytes from the offset on; a read at or past
/// the end delivers none.
pub proof fn lemma_read_delivers(content: Seq<u8>, offset: int, n: int)
    requires
        0 <= offset,
        0 <= n,
    ensures
        ({
            let k = read_count(content, offset, n);
            let d = file_read(content, offset, n);
            &&& offset >= content.len() ==> k == 0 && d.len() == 0
            &&& offset < content.len() ==> {
                &&& k <= n
                &&& k <= content.len() - offset
                &&& (k == n || k == content.len() - offset)
                &&& d.len() == k
                &&& forall|i: int| 0 <= i < k ==> d[i] == content[offset + i]
            }
        }),
{
}


/// A read at the offset of a write, of as many bytes as were written, gives back the
/// written bytes.
pub proof fn lemma_read_after_write(content: Seq<u8>, offset: int, data: Seq<u8>)
    requires
        0 <= offset,
    ensures
        file_read(file_write(content, offset, data), offset, data.len() as int) == data,
{
    let w = file_write(content, offset, data);
    assert(w.len() == zero_extend(content, offset + data.len()).len());
    assert(file_read(w, offset, data.len() as int) =~= data);
}

/// A write leaves the file at least as long as before and as the written range, fills
/// any gap between the old end and the offset with zeros, and keeps every other byte.
pub proof fn lemma_write_shape(content: Seq<u8>, offset: int, data: Seq<u8>)
    requires
        0 <= offset,
    ensures
        ({
            let w = file_write(content, offset, data);
            &&& w.len() == if offset + data.len() > content.len() { offset + data.len() } else { content.len() as int }
            &&& forall|i: int| 0 <= i < w.len() && !(offset <= i < offset + data.len()) && i < content.len() ==> w[i] == content[i]
            &&& forall|i: int| content.len() <= i < offset ==> w[i] == 0u8
            &&& forall|i: int| 0 <= i < data.len() ==> w[offset + i] == data[i]
        }),
{
}

/// Entries found by name: after putting a new name into a sorted directory, the name is
/// found with its inode, and every other name is found as before.
pub proof fn lemma_sorted_insert_lookup(e: Seq<(Seq<char>, nat)>, name: Seq<char>, node: nat, other: Seq<char>)
    ensures
        dir_lookup(e, name) is None ==> dir_lookup(sorted_insert(e, name, node), name) == Some(node),
        other != name ==> dir_lookup(sorted_insert(e, name, node), other) == dir_lookup(e, other),
    decreases e.len(),
{
    if e.len() > 0 && name_lt(e[0].0, name) {
        let s = sorted_insert(e.drop_first(), name, node);
        lemma_sorted_insert_lookup(e.drop_first(), name, node, other);
        let x = seq![e[0]] + s;
        assert(sorted_insert(e, name, node) == x);
        assert(x.drop_first() =~= s);
        assert(x[0] == e[0]);
        if other != name {
            assert(dir_lookup(x, other) == dir_lookup(e, other));
        }
    } else if e.len() > 0 {
        let x = seq![(name, node)] + e;
        assert(sorted_insert(e, name, node) == x);
        assert(x.drop_first() =~= e);
        assert(x[0] == (name, node));
        if other != name {
            assert(dir_lookup(x, other) == dir_lookup(e, other));
        }
    } else {
        let x = seq![(name, node)];
        assert(sorted_insert(e, name, node) == x);
        assert(x.drop_first() =~= Seq::<(Seq<char>, nat)>::empty());
        assert(x[0] == (name, node));
        if other != name {
            assert(dir_lookup(x, other) == dir_lookup(x.drop_first(), other));
        }
    }
}

/// `sorted_insert` puts the entry where a scan that stops at the first name not below
/// it would put it.
proof fn lemma_sorted_insert_at(e: Seq<(Seq<char>, nat)>, name: Seq<char>, node: nat, i: int)
    requires
        0 <= i <= e.len(),
        forall|j: int| 0 <= j < i ==> name_lt(#[trigger] e[j].0, name),
        i < e.len() ==> !name_lt(e[i].0, name),
    ensures
        sorted_insert(e, name, node) == e.insert(i, (name, node)),
    decreases e.len(),
{
    if e.len() == 0 {
        assert(e.insert(i, (name, node)) =~= seq![(name, node)]);
    } else if i == 0 {
        assert(e.insert(0, (name, node)) =~= seq![(name, node)] + e);
    } else {
        let t = e.drop_first();
        assert forall|j: int| 0 <= j < i - 1 implies name_lt(#[trigger] t[j].0, name) by {
            assert(t[j] == e[j + 1]);
        }
        lemma_sorted_insert_at(t, name, node, i - 1);
        assert(e.insert(i, (name, node)) =~= seq![e[0]] + t.insert(i - 1, (name, node)));
    }
}

/// In a sorted directory, the first entry with a name is the only one.
proof fn lemma_dir_lookup_sorted(e: Seq<(Seq<char>, nat)>, name: Seq<char>)
    requires
        entries_sorted(e),
    ensures
        dir_lookup(e, name) is Some <==> exists|k: int| 0 <= k < e.len() && #[trigger] e[k].0 == name,
        forall|k: int| 0 <= k < e.len() && #[trigger] e[k].0 == name ==> dir_lookup(e, name) == Some(e[k].1),
    decreases e.len(),
{
    if e.len() > 0 {
        let t = e.drop_first();
        assert(entries_sorted(t)) by {
            assert forall|i: int, j: int| 0 <= i < j < t.len() implies name_lt(#[trigger] t[i].0, #[trigger] t[j].0) by {
                assert(t[i] == e[i + 1] && t[j] == e[j + 1]);
            }
        }
        lemma_dir_lookup_sorted(t, name);
        if e[0].0 == name {
            assert forall|k: int| 0 <= k < e.len() && #[trigger] e[k].0 == name implies k == 0 by {
                if k > 0 {
                    lemma_name_lt_irreflexive(name);
                }
            }
        } else {
            assert forall|k: int| 0 < k < e.len() && #[trigger] e[k].0 == name implies t[k - 1].0 == name by {}
            if exists|k: int| 0 <= k < e.len() && #[trigger] e[k].0 == name {
                let k = choose|k: int| 0 <= k < e.len() && #[trigger] e[k].0 == name;
                assert(t[k - 1].0 == name);
            }
            if exists|k: int| 0 <= k < t.len() && #[trigger] t[k].0 == name {
                let k = choose|k: int| 0 <= k < t.len() && #[trigger] t[k].0 == name;
                assert(e[k + 1].0 == name);
            }
        }
    }
}

// ---------------------------------------------------------------------------
// The in-memory filesystem
// ---------------------------------------------------------------------------

struct DirEntry {
    name: String,
    node: NodeId,
}

enum RamNodeInner {
    File { content: Vec<u8> },
    Directory { children: Vec<DirEntry> },
}

spec fn entry_view(e: DirEntry) -> (Seq<char>, nat) {
    (e.name@, e.node as nat)
}

spec fn node_view(n: RamNodeInner) -> NodeModel {
    match n {
        RamNodeInner::File { content } => NodeModel::File(content@),
        RamNodeInner::Directory { children } => NodeModel::Directory(
            children@.map_values(|e: DirEntry| entry_view(e)),
        ),
    }
}

spec fn entries_view(children: Seq<DirEntry>) -> Seq<(Seq<char>, nat)> {
    children.map_values(|x: DirEntry| entry_view(x))
}

/// Where `name` goes among sorted entries: `None` when the name is taken, else the
/// index of the first entry whose name is above it.
fn entry_slot(children: &Vec<DirEntry>, name: &str) -> (r: Option<usize>)
    requires
        entries_sorted(entries_view(children@)),
    ensures
        ({
            let e = entries_view(children@);
            match r {
                Some(i) => {
                    &&& i <= e.len()
                    &&& forall|j: int| 0 <= j < i ==> name_lt(#[trigger] e[j].0, name@)
                    &&& i < e.len() ==> name_lt(name@, e[i as int].0)
                    &&& dir_lookup(e, name@) is None
                },
                None => dir_lookup(e, name@) is Some,
            }
        }),
{
    let ghost e = entries_view(children@);
    proof {
        lemma_dir_lookup_sorted(e, name@);
    }
    let mut i: usize = 0;
    while i < children.len()
        invariant
            i <= children@.len(),
            e == entries_view(children@),
            entries_sorted(e),
            dir_lookup(e, name@) is Some <==> exists|k: int| 0 <= k < e.len() && #[trigger] e[k].0 == name@,
            forall|j: int| 0 <= j < i ==> name_lt(#[trigger] e[j].0, name@),
        decreases children.len() - i,
    {
        let ord = compare_names(children[i].name.as_str(), name);
        proof {
            assert(e[i as int] == entry_view(children@[i as int]));
        }
        if ord == NameOrder::Equal {
            proof {
                assert(e[i as int].0 == name@);
            }
            return None;
        }
        if ord == NameOrder::Greater {
            proof {
                assert forall|k: int| 0 <= k < e.len() implies #[trigger] e[k].0 != name@ by {
                    if e[k].0 == name@ {
                        lemma_name_lt_irreflexive(name@);
                        if k > i {
                            lemma_name_lt_transitive(name@, e[i as int].0, e[k].0);
                        }
                    }
                }
            }
            return Some(i);
        }
        i = i + 1;
    }
    proof {
        assert forall|k: int| 0 <= k < e.len() implies #[trigger] e[k].0 != name@ by {
            if e[k].0 == name@ {
                lemma_name_lt_irreflexive(name@);
            }
        }
    }
    Some(i)
}

/// An in-memory filesystem: a table of inodes, inode 0 being the root directory.
/// Each directory keeps its entries in name order.
pub struct RamFs {
    nodes: Vec<RamNodeInner>,
}

/// A directory's entries are in order and refer to inodes below `count`.
pub open spec fn node_wf(n: NodeModel, count: nat) -> bool {
    match n {
        NodeModel::File(_) => true,
        NodeModel::Directory(e) => entries_sorted(e) && forall|k: int| 0 <= k < e.len() ==> #[trigger] e[k].1 < count,
    }
}

impl View for RamFs {
    type V = Seq<NodeModel>;

    closed spec fn view(&self) -> Seq<NodeModel> {
        self.nodes@.map_values(|n: RamNodeInner| node_view(n))
    }
}

impl RamFs {
    /// The root directory exists and every directory is well formed.
    pub open spec fn wf(&self) -> bool {
        &&& 0 < self@.len() <= usize::MAX
        &&& self@[0] is Directory
        &&& forall|i: int| 0 <= i < self@.len() ==> node_wf(#[trigger] self@[i], self@.len())
    }

    /// A filesystem that holds an empty root directory.
    pub fn new() -> (fs: RamFs)
        ensures
            fs.wf(),
            fs@ == seq![NodeModel::Directory(seq![])],
    {
        let mut nodes: Vec<RamNodeInner> = Vec::new();
        nodes.push(RamNodeInner::Directory { children: Vec::new() });
        let fs = RamFs { nodes };
        proof {
            let empty: Seq<DirEntry> = Seq::empty();
            assert(empty.map_values(|e: DirEntry| entry_view(e)) =~= seq![]);
            assert(fs@ =~= seq![NodeModel::Directory(seq![])]);
        }
        fs
    }

    /// The root directory's inode.
    pub fn root(&self) -> (r: NodeId)
        ensures
            r == 0,
    {
        0
    }

    /// File type and size of an inode (a directory has size 0).
    pub fn metadata(&self, node: NodeId) -> (r: Result<Metadata, VfsError>)
        requires
            self.wf(),
            node < self@.len(),
        ensures
            r matches Ok(m) && match self@[node as int] {
                NodeModel::File(c) => m.file_type == FileType::File && m.size == c.len(),
                NodeModel::Directory(_) => m.file_type == FileType::Directory && m.size == 0,
            },
    {
        proof {
            assert(node_view(self.nodes@[node as int]) == self@[node as int]);
        }
        match &self.nodes[node] {
            RamNodeInner::File { content } => Ok(Metadata { file_type: FileType::File, size: content.len() as u64 }),
            RamNodeInner::Directory { .. } => Ok(Metadata { file_type: FileType::Directory, size: 0 }),
        }
    }

    /// Reads from a file at `offset` into `buf`, as many bytes as fit and as the file has
    /// past the offset; returns how many it read.
    pub fn read(&self, node: NodeId, offset: u64, buf: &mut [u8]) -> (r: Result<usize, VfsError>)
        requires
            self.wf(),
            node < self@.len(),
            self@[node as int] is File ==> offset <= usize::MAX,
        ensures
            match self@[node as int] {
                NodeModel::File(c) => {
                    let n = read_count(c, offset as int, old(buf)@.len() as int);
                    &&& r == Ok::<usize, VfsError>(n as usize)
                    &&& final(buf)@ == file_read(c, offset as int, old(buf)@.len() as int) + old(buf)@.skip(n)
                },
                NodeModel::Directory(_) => r == Err::<usize, VfsError>(VfsError::IsADirectory) && final(buf)@ == old(buf)@,
            },
    {
        proof {
            assert(node_view(self.nodes@[node as int]) == self@[node as int]);
        }
        match &self.nodes[node] {
            RamNodeInner::File { content } => {
                let off = offset as usize;
                if off >= content.len() {
                    proof {
                        assert(old(buf)@.skip(0) =~= old(buf)@);
                        assert(file_read(content@, offset as int, old(buf)@.len() as int) =~= Seq::<u8>::empty());
                    }
                    return Ok(0);
                }
                let avail = content.len() - off;
                let len = if buf.len() < avail { buf.len() } else { avail };
                let mut k: usize = 0;
                while k < len
                    invariant
                        k <= len,
                        len <= buf.len(),
                        off + len <= content.len(),
                        buf@.len() == old(buf)@.len(),
                        forall|j: int| 0 <= j < k ==> buf@[j] == content@[off + j],
                        forall|j: int| k <= j < buf@.len() ==> buf@[j] == old(buf)@[j],
                    decreases len - k,
                {
                    buf[k] = content[off + k];
                    k = k + 1;
                }
                proof {
                    assert(buf@ =~= file_read(content@, offset as int, old(buf)@.len() as int) + old(buf)@.skip(len as int));
                }
                Ok(len)
            },
            RamNodeInner::Directory { .. } => Err(VfsError::IsADirectory),
        }
    }

    /// Writes `data` into a file at `offset`, growing the file with zero bytes up to the
    /// offset where needed; returns how many bytes it wrote.
    pub fn write(&mut self, node: NodeId, offset: u64, data: &[u8]) -> (r: Result<usize, VfsError>)
        requires
            old(self).wf(),
            node < old(self)@.len(),
            old(self)@[node as int] is File ==> offset + data@.len() <= usize::MAX,
        ensures
            final(self).wf(),
            match old(self)@[node as int] {
                NodeModel::File(c) => {
                    &&& r == Ok::<usize, VfsError>(data@.len() as usize)
                    &&& final(self)@ == old(self)@.update(node as int, NodeModel::File(file_write(c, offset as int, data@)))
                },
                NodeModel::Directory(_) => r == Err::<usize, VfsError>(VfsError::IsADirectory) && final(self)@ == old(self)@,
            },
    {
        proof {
            assert(node_view(self.nodes@[node as int]) == self@[node as int]);
        }
        let mut taken = RamNodeInner::File { content: Vec::new() };
        std::mem::swap(&mut taken, &mut self.nodes[node]);
        match taken {
            RamNodeInner::File { mut content } => {
                let ghost c = content@;
                let off = offset as usize;
                let end = off + data.len();
                while content.len() < end
                    invariant
                        content@ == zero_extend(c, content@.len() as int),
                        c.len() <= content@.len() <= end || content@ == c,
                    decreases end - content.len(),
                {
                    proof {
                        assert(zero_extend(c, content@.len() + 1int) =~= zero_extend(c, content@.len() as int).push(0u8));
                    }
                    content.push(0u8);
                }
                let ghost grown = content@;
                proof {
                    assert(grown =~= zero_extend(c, end as int));
                }
                let mut k: usize = 0;
                while k < data.len()
                    invariant
                        k <= data@.len(),
                        end == off + data@.len(),
                        grown.len() >= end,
                        content@ == grown.subrange(0, off as int) + data@.subrange(0, k as int) + grown.subrange(off + k, grown.len() as int),
                    decreases data.len() - k,
                {
                    content[off + k] = data[k];
                    proof {
                        assert(content@ =~= grown.subrange(0, off as int) + data@.subrange(0, k + 1) + grown.subrange(off + k + 1, grown.len() as int));
                    }
                    k = k + 1;
                }
                proof {
                    assert(content@ =~= file_write(c, offset as int, data@));
                }
                self.nodes[node] = RamNodeInner::File { content };
                proof {
                    assert(self@ =~= old(self)@.update(node as int, NodeModel::File(file_write(c, offset as int, data@))));
                    assert forall|i: int| 0 <= i < self@.len() implies node_wf(#[trigger] self@[i], self@.len()) by {
                        assert(node_wf(old(self)@[i], old(self)@.len()));
                    }
                }
                Ok(data.len())
            },
            RamNodeInner::Directory { children } => {
                self.nodes[node] = RamNodeInner::Directory { children };
                proof {
                    assert(self@ =~= old(self)@);
                }
                Err(VfsError::IsADirectory)
            },
        }
    }

    /// Finds the inode that a directory's entry `name` refers to.
    pub fn lookup(&self, dir: NodeId, name: &str) -> (r: Result<NodeId, VfsError>)
        requires
            self.wf(),
            dir < self@.len(),
        ensures
            match self@[dir as int] {
                NodeModel::File(_) => r == Err::<NodeId, VfsError>(VfsError::NotADirectory),
                NodeModel::Directory(e) => match dir_lookup(e, name@) {
                    Some(n) => r == Ok::<NodeId, VfsError>(n as NodeId),
                    None => r == Err::<NodeId, VfsError>(VfsError::NotFound),
                },
            },
            r matches Ok(id) ==> id < self@.len(),
    {
        proof {
            assert(node_view(self.nodes@[dir as int]) == self@[dir as int]);
        }
        match &self.nodes[dir] {
            RamNodeInner::Directory { children } => {
                let ghost e = children@.map_values(|x: DirEntry| entry_view(x));
                let mut i: usize = 0;
                proof {
                    assert(e.skip(0) =~= e);
                    assert(node_wf(self@[dir as int], self@.len()));
                }
                while i < children.len()
                    invariant
                        i <= children@.len(),
                        e == children@.map_values(|x: DirEntry| entry_view(x)),
                        dir < self@.len(),
                        self@[dir as int] == NodeModel::Directory(e),
                        forall|k: int| 0 <= k < e.len() ==> #[trigger] e[k].1 < self@.len(),
                        dir_lookup(e, name@) == dir_lookup(e.skip(i as int), name@),
                    decreases children.len() - i,
                {
                    let ord = compare_names(children[i].name.as_str(), name);
                    proof {
                        assert(e[i as int] == entry_view(children@[i as int]));
                        assert(e.skip(i as int)[0] == e[i as int]);
                        assert(e.skip(i as int).drop_first() =~= e.skip(i as int + 1));
                    }
                    if ord == NameOrder::Equal {
                        return Ok(children[i].node);
                    }
                    i = i + 1;
                }
                proof {
                    assert(e.skip(i as int) =~= Seq::<(Seq<char>, nat)>::empty());
                }
                Err(VfsError::NotFound)
            },
            RamNodeInner::File { .. } => Err(VfsError::NotADirectory),
        }
    }

    /// Adds `node` under `name` to a directory, where the name is still free.
    fn add_child(&mut self, dir: NodeId, name: &str, node: RamNodeInner) -> (r: Result<NodeId, VfsError>)
        requires
            old(self).wf(),
            dir < old(self)@.len(),
            node_view(node) == NodeModel::File(seq![]) || node_view(node) == NodeModel::Directory(seq![]),
        ensures
            final(self).wf(),
            match old(self)@[dir as int] {
                NodeModel::File(_) => r == Err::<NodeId, VfsError>(VfsError::NotADirectory) && final(self)@ == old(self)@,
                NodeModel::Directory(e) => if dir_lookup(e, name@) is Some {
                    r == Err::<NodeId, VfsError>(VfsError::AlreadyExists) && final(self)@ == old(self)@
                } else {
                    &&& r == Ok::<NodeId, VfsError>(old(self)@.len() as NodeId)
                    &&& final(self)@ == old(self)@.push(node_view(node)).update(
                        dir as int,
                        NodeModel::Directory(sorted_insert(e, name@, old(self)@.len())),
                    )
                },
            },
    {
        proof {
            assert(node_view(self.nodes@[dir as int]) == self@[dir as int]);
            assert(node_wf(self@[dir as int], self@.len()));
        }
        let pos: usize;
        match &self.nodes[dir] {
            RamNodeInner::Directory { children } => {
                match entry_slot(children, name) {
                    Some(i) => {
                        pos = i;
                    },
                    None => {
                        return Err(VfsError::AlreadyExists);
                    },
                }
            },
            RamNodeInner::File { .. } => {
                return Err(VfsError::NotADirectory);
            },
        }
        let ghost old_view = self@;
        let ghost e = match old_view[dir as int] {
            NodeModel::Directory(e) => e,
            NodeModel::File(_) => Seq::empty(),
        };
        let new_id = self.nodes.len();
        self.nodes.push(node);
        let mut taken = RamNodeInner::File { content: Vec::new() };
        std::mem::swap(&mut taken, &mut self.nodes[dir]);
        match taken {
            RamNodeInner::Directory { mut children } => {
                proof {
                    assert(e == children@.map_values(|x: DirEntry| entry_view(x)));
                }
                children.insert(pos, DirEntry { name: name.to_owned(), node: new_id });
                let ghost e2 = children@.map_values(|x: DirEntry| entry_view(x));
                proof {
                    assert(e2 =~= e.insert(pos as int, (name@, new_id as nat)));
                    assert(!name_lt(e[pos as int].0, name@) || pos == e.len()) by {
                        if pos < e.len() {
                            lemma_bytes_lt_asymmetric(encode_utf8(name@), encode_utf8(e[pos as int].0));
                        }
                    }
                    lemma_sorted_insert_at(e, name@, new_id as nat, pos as int);
                    assert(entries_sorted(e2)) by {
                        assert forall|a: int, b: int| 0 <= a < b < e2.len() implies name_lt(#[trigger] e2[a].0, #[trigger] e2[b].0) by {
                            if b < pos {
                            } else if b == pos {
                            } else if a < pos {
                                assert(e2[b] == e[b - 1]);
                                lemma_name_lt_transitive(e[a].0, name@, e[pos as int].0);
                                if b - 1 > pos {
                                    lemma_name_lt_transitive(e[a].0, e[pos as int].0, e[b - 1].0);
                                }
                            } else if a == pos {
                                assert(e2[b] == e[b - 1]);
                                if b - 1 > pos {
                                    lemma_name_lt_transitive(name@, e[pos as int].0, e[b - 1].0);
                                }
                            } else {
                                assert(e2[a] == e[a - 1] && e2[b] == e[b - 1]);
                            }
                        }
                    }
                }
                self.nodes[dir] = RamNodeInner::Directory { children };
                proof {
                    let target = old_view.push(node_view(node)).update(
                        dir as int,
                        NodeModel::Directory(sorted_insert(e, name@, old_view.len())),
                    );
                    assert(self@ =~= target);
                    assert(self.nodes@.len() == self.nodes.len());
                    assert forall|i: int| 0 <= i < self@.len() implies node_wf(#[trigger] self@[i], self@.len()) by {
                        if i == dir {
                            assert forall|k: int| 0 <= k < e2.len() implies #[trigger] e2[k].1 < self@.len() by {
                                if k < pos {
                                } else if k > pos {
                                    assert(e2[k] == e[k - 1]);
                                }
                            }
                        } else if i < old_view.len() {
                            assert(node_wf(old_view[i], old_view.len()));
                        }
                    }
                }
                Ok(new_id)
            },
            RamNodeInner::File { content } => {
                proof {
                    assert(false);
                }
                Err(VfsError::NotADirectory)
            },
        }
    }

    /// Creates an empty file `name` in a directory.
    pub fn create(&mut self, dir: NodeId, name: &str) -> (r: Result<NodeId, VfsError>)
        requires
            old(self).wf(),
            dir < old(self)@.len(),
        ensures
            final(self).wf(),
            match old(self)@[dir as int] {
                NodeModel::File(_) => r == Err::<NodeId, VfsError>(VfsError::NotADirectory) && final(self)@ == old(self)@,
                NodeModel::Directory(e) => if dir_lookup(e, name@) is Some {
                    r == Err::<NodeId, VfsError>(VfsError::AlreadyExists) && final(self)@ == old(self)@
                } else {
                    &&& r == Ok::<NodeId, VfsError>(old(self)@.len() as NodeId)
                    &&& final(self)@ == old(self)@.push(NodeModel::File(seq![])).update(
                        dir as int,
                        NodeModel::Directory(sorted_insert(e, name@, old(self)@.len())),
                    )
                },
            },
            r matches Ok(id) ==> id < final(self)@.len(),
    {
        let node = RamNodeInner::File { content: Vec::new() };
        proof {
            assert(node_view(node) =~= NodeModel::File(seq![]));
        }
        self.add_child(dir, name, node)
    }

    /// Creates an empty directory `name` in a directory.
    pub fn mkdir(&mut self, dir: NodeId, name: &str) -> (r: Result<NodeId, VfsError>)
        requires
            old(self).wf(),
            dir < old(self)@.len(),
        ensures
            final(self).wf(),
            match old(self)@[dir as int] {
                NodeModel::File(_) => r == Err::<NodeId, VfsError>(VfsError::NotADirectory) && final(self)@ == old(self)@,
                NodeModel::Directory(e) => if dir_lookup(e, name@) is Some {
                    r == Err::<NodeId, VfsError>(VfsError::AlreadyExists) && final(self)@ == old(self)@
                } else {
                    &&& r == Ok::<NodeId, VfsError>(old(self)@.len() as NodeId)
                    &&& final(self)@ == old(self)@.push(NodeModel::Directory(seq![])).update(
                        dir as int,
                        NodeModel::Directory(sorted_insert(e, name@, old(self)@.len())),
                    )
                },
            },
            r matches Ok(id) ==> id < final(self)@.len(),
    {
        let node = RamNodeInner::Directory { children: Vec::new() };
        proof {
            let empty: Seq<DirEntry> = Seq::empty();
            assert(empty.map_values(|e: DirEntry| entry_view(e)) =~= seq![]);
            assert(node_view(node) =~= NodeModel::Directory(seq![]));
        }
        self.add_child(dir, name, node)
    }

    /// The names in a directory, in increasing order.
    pub fn readdir(&self, dir: NodeId) -> (r: Result<Vec<String>, VfsError>)
        requires
            self.wf(),
            dir < self@.len(),
        ensures
            match self@[dir as int] {
                NodeModel::File(_) => r is Err && r->Err_0 == VfsError::NotADirectory,
                NodeModel::Directory(e) => r matches Ok(names)
                    && names@.map_values(|s: String| s@) == e.map_values(|x: (Seq<char>, nat)| x.0),
            },
    {
        proof {
            assert(node_view(self.nodes@[dir as int]) == self@[dir as int]);
        }
        match &self.nodes[dir] {
            RamNodeInner::Directory { children } => {
                let ghost e = children@.map_values(|x: DirEntry| entry_view(x));
                let mut names: Vec<String> = Vec::new();
                let mut i: usize = 0;
                while i < children.len()
                    invariant
                        i <= children@.len(),
                        e == children@.map_values(|x: DirEntry| entry_view(x)),
                        self@[dir as int] == NodeModel::Directory(e),
                        names@.len() == i,
                        forall|j: int| 0 <= j < i ==> #[trigger] names@[j]@ == e[j].0,
                    decreases children.len() - i,
                {
                    let n = children[i].name.clone();
                    names.push(n);
                    proof {
                        assert(e[i as int] == entry_view(children@[i as int]));
                    }
                    i = i + 1;
                }
                proof {
                    assert(names@.map_values(|s: String| s@) =~= e.map_values(|x: (Seq<char>, nat)| x.0));
                }
                Ok(names)
            },
            RamNodeInner::File { .. } => Err(VfsError::NotADirectory),
        }
    }
}

} // verus!
