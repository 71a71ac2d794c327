use vstd::prelude::*;

use vstd::string::StringExecFns;

verus! {

/// Classification of a pipe segment's special ends.
///
/// `Plain` marks a segment with only plain ends (reported under the name
/// "None"), `Wide` and `Door` mark the two special end classes (special ends only join ends of the same class), and
/// `Volatile` marks an obstacle that takes part in no shape.  `Removed` never
/// occurs on the board: it only labels a cell in a move report whose segment
/// was deleted by an opening door.
#[derive(Clone, Copy, Debug, PartialEq, Eq, Structural)]
pub enum Kind {
    Plain,
    Wide,
    Door,
    Volatile,
    Removed,
}

impl Kind {
    /// The fixed name of each classification, as it appears in level reports.
    pub fn to_string(&self) -> (r: &'static str)
        ensures
            r@ == self.spec_name(),
    {
        match self {
            Kind::Plain => "None",
            Kind::Wide => "Wide",
            Kind::Door => "Door",
            Kind::Volatile => "Volatile",
            Kind::Removed => "Removed",
        }
    }

    pub open spec fn spec_name(self) -> Seq<char> {
        match self {
            Kind::Plain => "None"@,
            Kind::Wide => "Wide"@,
            Kind::Door => "Door"@,
            Kind::Volatile => "Volatile"@,
            Kind::Removed => "Removed"@,
        }
    }

    /// The classification a fixed name stands for.
    pub open spec fn spec_of_name(s: Seq<char>) -> Option<Kind> {
        if s == "None"@ {
            Some(Kind::Plain)
        } else if s == "Wide"@ {
            Some(Kind::Wide)
        } else if s == "Door"@ {
            Some(Kind::Door)
        } else if s == "Volatile"@ {
            Some(Kind::Volatile)
        } else if s == "Removed"@ {
            Some(Kind::Removed)
        } else {
            Option::None
        }
    }

    /// Parse a classification back from its fixed name.
    pub fn from_str(s: &str) -> (r: Result<Kind, String>)
        ensures
            match r {
                Ok(k) => Kind::spec_of_name(s@) == Some(k),
                Err(_) => Kind::spec_of_name(s@) is None,
            },
    {
        let owned = s.to_owned();
        if owned == String::from_str("None") {
            Ok(Kind::Plain)
        } else if owned == String::from_str("Wide") {
            Ok(Kind::Wide)
        } else if owned == String::from_str("Door") {
            Ok(Kind::Door)
        } else if owned == String::from_str("Volatile") {
            Ok(Kind::Volatile)
        } else if owned == String::from_str("Removed") {
            Ok(Kind::Removed)
        } else {
            Err(String::from_str("Failed to parse string to type `Kind`"))
        }
    }
}

/// The palette the engine paints with: the selected shape is white, everything
/// else dark grey, and the completion marker green.
#[derive(Clone, Copy, Debug, PartialEq, Eq, Structural)]
pub enum Color {
    White,
    DarkGrey,
    Green,
}

/// One grid cell's pipe segment or wall.
///
/// `connectors` is an 8-bit mask: the low nibble holds the plain ends for
/// Up (8), Right (4), Down (2) and Left (1); the high nibble holds the same
/// four directions for a special end.  A direction never has both its plain
/// and its special bit set.  A mask of 0 is an immovable wall (or a Volatile
/// obstacle), always its own singleton shape.
#[derive(Clone, Copy, Debug, PartialEq, Eq)]
pub struct Object {
    pub id: i32,
    pub shape: i32,
    pub color: Option<Color>,
    pub connectors: i32,
    pub kind: Kind,
    pub pos: (u16, u16),
}

/// Coordinates run from 0 to this bound inclusive; the initial board is one
/// wider so that a cursor can stand one step past the last legal cell column.
pub const MAX_COORD: u16 = 65534;

impl Object {
    pub fn new(id: i32, shape: i32, connectors: i32, kind: Kind, pos: (u16, u16)) -> (r: Object)
        ensures
            r == (Object { id, shape, connectors, kind, pos, color: Option::None }),
    {
        Object { id, shape, connectors, kind, pos, color: Option::None }
    }

    pub fn new_with_color(
        id: i32,
        shape: i32,
        connectors: i32,
        kind: Kind,
        pos: (u16, u16),
        color: Option<Color>,
    ) -> (r: Object)
        ensures
            r == (Object { id, shape, connectors, kind, pos, color }),
    {
        Object { id, shape, connectors, kind, pos, color }
    }

    pub fn connectors(&self) -> (r: i32)
        ensures
            r == self.connectors,
    {
        self.connectors
    }

    pub fn pos(&self) -> (r: (u16, u16))
        ensures
            r == self.pos,
    {
        self.pos
    }

    pub fn color(&self) -> (r: Option<Color>)
        ensures
            r == self.color,
    {
        self.color
    }

    pub fn kind(&self) -> (r: Kind)
        ensures
            r == self.kind,
    {
        self.kind
    }

    /// A wall (or Volatile obstacle): a cell with no ends at all.
    pub open spec fn spec_is_wall(self) -> bool {
        self.connectors == 0
    }

    /// The connector mask is an 8-bit value whose plain and special nibbles
    /// never share a direction, and the position lies in the legal extent.
    pub open spec fn wf(self) -> bool {
        &&& 0 <= self.connectors <= 255
        &&& (self.connectors >> 4) & self.connectors & 0xF == 0
        &&& self.pos.0 <= MAX_COORD
        &&& self.pos.1 <= MAX_COORD
    }

    /// Runtime check for [`Object::wf`], so that every segment the engine
    /// accepts is well formed by construction.
    pub fn check_wf(&self) -> (r: bool)
        ensures
            r == self.wf(),
    {
        0 <= self.connectors && self.connectors <= 255
            && ((self.connectors >> 4i32) & self.connectors & 0xFi32) == 0
            && self.pos.0 <= MAX_COORD && self.pos.1 <= MAX_COORD
    }
}

} // verus!
