//! Resources: the payloads whose ownership the tracker follows.

use vstd::prelude::*;

verus! {

/// How a resource is stored, which decides how it is duplicated.
#[derive(Clone, Copy, Debug, PartialEq, Eq, Structural)]
pub enum ResourceKind {
    /// Fixed size and no allocation of its own: duplicated bit for bit.
    Fixed,
    /// A growable buffer: duplicated by allocating a new buffer.
    Growable,
}

/// What a resource is, as plain values.
pub struct ResourceModel {
    /// The identity, which no other resource of the same tracker shares.
    pub id: int,
    pub kind: ResourceKind,
    pub contents: Seq<u8>,
    /// The room asked for when the buffer was allocated.
    pub reserved: int,
}

impl ResourceModel {
    /// The number of bytes held.
    pub open spec fn length(self) -> int {
        self.contents.len() as int
    }

    /// The room of a growable buffer, never less than its length; a fixed
    /// resource has none.
    pub open spec fn capacity(self) -> Option<int> {
        match self.kind {
            ResourceKind::Fixed => None,
            ResourceKind::Growable => Some(
                if self.reserved >= self.length() {
                    self.reserved
                } else {
                    self.length()
                },
            ),
        }
    }

    /// An independent resource with the same contents under the identity `id`.
    /// The duplicate of a buffer is allocated to fit.
    pub open spec fn duplicate(self, id: int) -> ResourceModel {
        ResourceModel { id, kind: self.kind, contents: self.contents, reserved: 0 }
    }
}

/// An owned payload. It cannot be cloned: the only way to a second resource
/// with the same contents is the tracker's `copy`.
#[derive(Debug)]
pub struct Resource {
    id: usize,
    kind: ResourceKind,
    contents: Vec<u8>,
    reserved: usize,
}

impl View for Resource {
    type V = ResourceModel;

    closed spec fn view(&self) -> ResourceModel {
        ResourceModel {
            id: self.id as int,
            kind: self.kind,
            contents: self.contents@,
            reserved: self.reserved as int,
        }
    }
}

impl Resource {
    pub(crate) fn new(id: usize, kind: ResourceKind, contents: Vec<u8>, reserved: usize) -> (r:
        Resource)
        ensures
            r@ == (ResourceModel {
                id: id as int,
                kind,
                contents: contents@,
                reserved: reserved as int,
            }),
    {
        Resource { id, kind, contents, reserved }
    }

    /// The identity of the resource.
    pub fn id(&self) -> (id: usize)
        ensures
            id == self@.id,
    {
        self.id
    }

    pub fn kind(&self) -> (kind: ResourceKind)
        ensures
            kind == self@.kind,
    {
        self.kind
    }

    /// The number of bytes held.
    pub fn length(&self) -> (n: usize)
        ensures
            n == self@.length(),
    {
        self.contents.len()
    }

    pub fn contents(&self) -> (bytes: &Vec<u8>)
        ensures
            bytes@ == self@.contents,
    {
        &self.contents
    }

    /// The room of a growable buffer; `None` for a fixed resource.
    pub fn capacity(&self) -> (c: Option<usize>)
        ensures
            match c {
                Some(n) => self@.capacity() == Some(n as int),
                None => self@.capacity() is None,
            },
    {
        match self.kind {
            ResourceKind::Fixed => None,
            ResourceKind::Growable => {
                let n: usize = self.contents.len();
                if self.reserved >= n {
                    Some(self.reserved)
                } else {
                    Some(n)
                }
            },
        }
    }

    /// The byte at `index`.
    pub(crate) fn byte(&self, index: usize) -> (b: u8)
        requires
            index < self@.contents.len(),
        ensures
            b == self@.contents[index as int],
    {
        self.contents[index]
    }

    /// An independent resource with the same contents under the identity `id`.
    pub(crate) fn duplicate(&self, id: usize) -> (r: Resource)
        ensures
            r@ == self@.duplicate(id as int),
    {
        let mut bytes: Vec<u8> = Vec::new();
        let mut i: usize = 0;
        while i < self.contents.len()
            invariant
                i <= self.contents.len(),
                bytes@ == self.contents@.take(i as int),
            decreases self.contents.len() - i,
        {
            bytes.push(self.contents[i]);
            i = i + 1;
            assert(bytes@ =~= self.contents@.take(i as int));
        }
        assert(bytes@ =~= self.contents@);
        Resource { id, kind: self.kind, contents: bytes, reserved: 0 }
    }
}

} // verus!
