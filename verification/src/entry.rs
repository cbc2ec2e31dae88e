use vstd::prelude::*;

verus! {

/// Identifies a stored entry: a buffer name paired with the entry's starting
/// offset inside that buffer. Coordinates are plain data, not references: a
/// coordinate may point at nothing, and every consumer treats that case as an
/// explicit absence.
pub type Coordinate = (String, usize);

/// The mathematical value of a [`Coordinate`]: the buffer name as a character
/// sequence and the offset as an unbounded integer.
pub type CoordSpec = (Seq<char>, int);

/// The mathematical value of a coordinate.
pub open spec fn coord_view(c: Coordinate) -> CoordSpec {
    (c.0@, c.1 as int)
}

/// The mathematical value of a list of coordinates, in order.
pub open spec fn coords_view(l: Seq<Coordinate>) -> Seq<CoordSpec> {
    l.map_values(|c: Coordinate| coord_view(c))
}

/// A payload wrapped with its group information: the name of the buffer it
/// was stored in, the payload itself, and the ordered coordinates of every
/// member of its group (itself included).
#[derive(Clone, Debug)]
pub struct MultiEntry {
    /// The name of the buffer this entry was inserted into.
    pub vector: String,
    /// The caller's payload.
    pub data: u64,
    /// The ordered coordinates of every member of this entry's group, in the
    /// order the group was inserted. A one-element list naming only this
    /// entry's own coordinate means the entry is in a group by itself.
    pub linked: Vec<Coordinate>,
}

/// The mathematical value of a [`MultiEntry`].
pub ghost struct MultiEntrySpec {
    pub vector: Seq<char>,
    pub data: u64,
    pub linked: Seq<CoordSpec>,
}

impl View for MultiEntry {
    type V = MultiEntrySpec;

    open spec fn view(&self) -> MultiEntrySpec {
        MultiEntrySpec { vector: self.vector@, data: self.data, linked: coords_view(self.linked@) }
    }
}

/// The mathematical value of one stored entry of a buffer: the length of the
/// span it occupies, and the wrapped payload. The starting offset is the key
/// under which the entry stands in the buffer's model, so it is not repeated
/// here.
pub ghost struct EntrySpec {
    pub size: int,
    pub entry: MultiEntrySpec,
}

/// Copies a list of coordinates exactly.
pub fn clone_coords(l: &Vec<Coordinate>) -> (r: Vec<Coordinate>)
    ensures
        r@ == l@,
{
    let mut r: Vec<Coordinate> = Vec::new();
    let mut i: usize = 0;
    while i < l.len()
        invariant
            i <= l@.len(),
            r@ == l@.take(i as int),
        decreases l@.len() - i,
    {
        let c = (l[i].0.clone(), l[i].1);
        assert(c == l@[i as int]);
        r.push(c);
        assert(r@ == l@.take(i as int).push(l@[i as int]));
        assert(l@.take(i as int).push(l@[i as int]) == l@.take(i as int + 1));
        i = i + 1;
    }
    assert(l@.take(l@.len() as int) == l@);
    r
}

} // verus!
