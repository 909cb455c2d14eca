//! Objects placed on an object layer, and their kinds.
use std::collections::HashMap;
use vstd::prelude::*;

verus! {

/// What an object on an object layer stands for.
#[derive(Debug, Clone, Copy, PartialEq, Eq, Structural)]
pub enum MapObjectKind {
    Item,
    Environment,
    Decoration,
}

/// The names under which the kinds are written in map files: `"item"`,
/// `"environment"` and `"decoration"`.
pub open spec fn kind_name(kind: MapObjectKind) -> Seq<char> {
    match kind {
        MapObjectKind::Item => "item"@,
        MapObjectKind::Environment => "environment"@,
        MapObjectKind::Decoration => "decoration"@,
    }
}

/// The kind that `name` names, if any.
pub open spec fn kind_named(name: Seq<char>) -> Option<MapObjectKind> {
    if name == "item"@ {
        Some(MapObjectKind::Item)
    } else if name == "environment"@ {
        Some(MapObjectKind::Environment)
    } else if name == "decoration"@ {
        Some(MapObjectKind::Decoration)
    } else {
        None
    }
}

/// The position of a kind in the list of options of a selection box.
pub open spec fn kind_index(kind: MapObjectKind) -> nat {
    match kind {
        MapObjectKind::Item => 0,
        MapObjectKind::Environment => 1,
        MapObjectKind::Decoration => 2,
    }
}

/// The kind at a position of the list of options of a selection box.
pub open spec fn kind_at(index: nat) -> MapObjectKind
    recommends
        index < 3,
{
    if index == 0 {
        MapObjectKind::Item
    } else if index == 1 {
        MapObjectKind::Environment
    } else {
        MapObjectKind::Decoration
    }
}

impl MapObjectKind {
    /// The labels of the kinds in a selection box, in the order of `get_index`.
    pub fn options() -> (r: &'static [&'static str])
        ensures
            r@.len() == 3,
            r@[0]@ == "Item"@,
            r@[1]@ == "Environment"@,
            r@[2]@ == "Decoration"@,
    {
        &["Item", "Environment", "Decoration"]
    }

    /// The kind that `name` names (`"item"`, `"environment"` or `"decoration"`),
    /// or `None` when it names none.
    pub fn parse(name: &str) -> (r: Option<MapObjectKind>)
        ensures
            r == kind_named(name@),
    {
        let name = name.to_owned();
        if name == "item".to_owned() {
            Some(MapObjectKind::Item)
        } else if name == "environment".to_owned() {
            Some(MapObjectKind::Environment)
        } else if name == "decoration".to_owned() {
            Some(MapObjectKind::Decoration)
        } else {
            None
        }
    }

    /// The kind that `name` names; `name` must be one of `"item"`,
    /// `"environment"` and `"decoration"`.
    pub fn from(name: String) -> (r: MapObjectKind)
        requires
            kind_named(name@) is Some,
        ensures
            kind_named(name@) == Some(r),
    {
        match MapObjectKind::parse(name.as_str()) {
            Some(kind) => kind,
            None => MapObjectKind::Item,
        }
    }

    /// The position of this kind in `options()`.
    pub fn get_index(&self) -> (r: usize)
        ensures
            r == kind_index(*self),
    {
        match self {
            MapObjectKind::Item => 0,
            MapObjectKind::Environment => 1,
            MapObjectKind::Decoration => 2,
        }
    }

    /// Makes this the kind at position `index` of `options()`.
    pub fn set_index(&mut self, index: usize)
        requires
            index < 3,
        ensures
            *final(self) == kind_at(index as nat),
    {
        *self = if index == 0 {
            MapObjectKind::Item
        } else if index == 1 {
            MapObjectKind::Environment
        } else {
            MapObjectKind::Decoration
        };
    }

    /// The labels of `options()` as owned strings.
    pub fn get_options(&self) -> (r: Vec<String>)
        ensures
            r@.len() == 3,
            r@[0]@ == "Item"@,
            r@[1]@ == "Environment"@,
            r@[2]@ == "Decoration"@,
    {
        let options = MapObjectKind::options();
        let mut r: Vec<String> = Vec::new();
        let mut i: usize = 0;
        while i < options.len()
            invariant
                options@.len() == 3,
                options@[0]@ == "Item"@,
                options@[1]@ == "Environment"@,
                options@[2]@ == "Decoration"@,
                i <= options@.len(),
                r@.len() == i,
                forall|j: int| 0 <= j < i ==> r@[j]@ == options@[j]@,
            decreases options@.len() - i,
        {
            r.push(options[i].to_owned());
            i = i + 1;
        }
        r
    }
}

/// Writing a kind's name and reading the name back gives the kind again:
/// `MapObjectKind::from(String::from(kind)) == kind`.
pub proof fn law_kind_name_round_trip(kind: MapObjectKind)
    ensures
        kind_named(kind_name(kind)) == Some(kind),
{
    reveal_strlit("item");
    reveal_strlit("environment");
    reveal_strlit("decoration");
    assert("item"@.len() == 4);
    assert("environment"@.len() == 11);
    assert("decoration"@.len() == 10);
}

/// A name that names a kind is that kind's name: reading a name and writing
/// the kind back gives the name again.
pub proof fn law_kind_named_is_name(name: Seq<char>)
    ensures
        kind_named(name) is Some ==> kind_name(kind_named(name).unwrap()) == name,
{
}

/// Every kind has a position among the options, and the kind at that position
/// is the kind itself.
pub proof fn law_kind_index_round_trip(kind: MapObjectKind)
    ensures
        kind_index(kind) < 3,
        kind_at(kind_index(kind)) == kind,
{
}

/// Each position among the options holds a kind whose position it is.
pub proof fn law_kind_at_round_trip(index: nat)
    requires
        index < 3,
    ensures
        kind_index(kind_at(index)) == index,
{
}

impl From<MapObjectKind> for String {
    /// The name under which `kind` is written in map files.
    fn from(kind: MapObjectKind) -> (r: String)
        ensures
            r@ == kind_name(kind),
    {
        match kind {
            MapObjectKind::Item => "item".to_owned(),
            MapObjectKind::Environment => "environment".to_owned(),
            MapObjectKind::Decoration => "decoration".to_owned(),
        }
    }
}

/// `String::from` on a kind is described by the `ensures` of the impl above,
/// over the string's view: a `String` value itself cannot be written in a
/// specification, so the spec form of `From` is not used.
impl vstd::std_specs::convert::FromSpecImpl<MapObjectKind> for String {
    open spec fn obeys_from_spec() -> bool {
        false
    }

    open spec fn from_spec(kind: MapObjectKind) -> String {
        arbitrary()
    }
}

} // verus!

verus! {

/// An object placed on an object layer: an item, a piece of the environment
/// or a decoration, at a position of the world.
#[derive(Debug, Clone)]
pub struct MapObject<V, P> {
    pub id: String,
    pub kind: MapObjectKind,
    pub position: V,
    pub properties: HashMap<String, P>,
}

impl<V, P> MapObject<V, P> {
    /// The object `id` of the given kind at `position`, with no properties.
    pub fn new(id: &str, kind: MapObjectKind, position: V) -> (r: MapObject<V, P>)
        ensures
            r.id@ == id@,
            r.kind == kind,
            r.position == position,
            r.properties@ == Map::<String, P>::empty(),
    {
        MapObject { id: id.to_owned(), kind, position, properties: HashMap::new() }
    }
}

} // verus!
