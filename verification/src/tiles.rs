//! The concrete tile alphabet and its adjacency-compatibility rule, one
//! interchangeable instance of the tile-domain capability.

use vstd::prelude::*;

use crate::domain::TileDomain;

verus! {

/// The tile kinds of the map generator.
#[derive(Clone, Copy, PartialEq, Eq, Structural, Debug, Hash)]
pub enum Tiles {
    Sand,
    Grass,
    Water,
    Forest,
}

/// The tile identified by label `l`; labels run in declaration order.
pub open spec fn tile_of(l: int) -> Tiles {
    if l == 0 {
        Tiles::Sand
    } else if l == 1 {
        Tiles::Grass
    } else if l == 2 {
        Tiles::Water
    } else {
        Tiles::Forest
    }
}

impl Tiles {
    /// The label of a tile: its position in `values()`.
    pub open spec fn label(self) -> int {
        match self {
            Tiles::Sand => 0,
            Tiles::Grass => 1,
            Tiles::Water => 2,
            Tiles::Forest => 3,
        }
    }

    /// All tiles, in declaration order.
    pub open spec fn spec_values() -> Seq<Tiles> {
        seq![Tiles::Sand, Tiles::Grass, Tiles::Water, Tiles::Forest]
    }

    /// The tiles permitted next to a cell fixed to `self`, in declaration
    /// order.
    pub open spec fn spec_allowed_neighbors(self) -> Seq<Tiles> {
        match self {
            Tiles::Sand => seq![Tiles::Grass, Tiles::Water],
            Tiles::Grass => seq![Tiles::Sand, Tiles::Forest],
            Tiles::Water => seq![Tiles::Sand],
            Tiles::Forest => seq![Tiles::Grass],
        }
    }

    /// Tile `b` is permitted next to a cell fixed to tile `a`.
    pub open spec fn spec_allows(a: Tiles, b: Tiles) -> bool {
        match a {
            Tiles::Sand => b == Tiles::Grass || b == Tiles::Water,
            Tiles::Grass => b == Tiles::Sand || b == Tiles::Forest,
            Tiles::Water => b == Tiles::Sand,
            Tiles::Forest => b == Tiles::Grass,
        }
    }

    /// `spec_allows` lists exactly the members of `spec_allowed_neighbors`.
    pub proof fn lemma_allows_is_neighbor_list(a: Tiles, b: Tiles)
        ensures
            Tiles::spec_allows(a, b) == a.spec_allowed_neighbors().contains(b),
    {
        let s = a.spec_allowed_neighbors();
        if s.contains(b) {
            let i = choose|i: int| 0 <= i < s.len() && s[i] == b;
            assert(Tiles::spec_allows(a, s[i]));
        }
        if Tiles::spec_allows(a, b) {
            match a {
                Tiles::Sand => {
                    if b == Tiles::Grass {
                        assert(s[0] == b);
                    } else {
                        assert(s[1] == b);
                    }
                },
                Tiles::Grass => {
                    if b == Tiles::Sand {
                        assert(s[0] == b);
                    } else {
                        assert(s[1] == b);
                    }
                },
                Tiles::Water => {
                    assert(s[0] == b);
                },
                Tiles::Forest => {
                    assert(s[0] == b);
                },
            }
            assert(s.contains(b));
        }
    }

    pub fn values() -> (r: Vec<Tiles>)
        ensures
            r@ == Tiles::spec_values(),
    {
        let r: Vec<Tiles> = vec![Tiles::Sand, Tiles::Grass, Tiles::Water, Tiles::Forest];
        proof {
            assert(r@ =~= Tiles::spec_values());
        }
        r
    }

    pub fn allowed_neighbors(&self) -> (r: Vec<Tiles>)
        ensures
            r@ == self.spec_allowed_neighbors(),
    {
        let r: Vec<Tiles> = match self {
            Tiles::Sand => vec![Tiles::Grass, Tiles::Water],
            Tiles::Grass => vec![Tiles::Sand, Tiles::Forest],
            Tiles::Water => vec![Tiles::Sand],
            Tiles::Forest => vec![Tiles::Grass],
        };
        proof {
            assert(r@ =~= self.spec_allowed_neighbors());
        }
        r
    }

    pub fn values_len() -> (n: usize)
        ensures
            n == Tiles::spec_values().len(),
    {
        4
    }

    /// The label of a tile, as the engine's domain numbers them.
    pub fn index(&self) -> (l: usize)
        ensures
            l == self.label(),
    {
        match self {
            Tiles::Sand => 0,
            Tiles::Grass => 1,
            Tiles::Water => 2,
            Tiles::Forest => 3,
        }
    }

    /// The tile a label of the engine's domain stands for.
    pub fn from_label(l: usize) -> (t: Tiles)
        requires
            l < Tiles::spec_values().len(),
        ensures
            t == tile_of(l as int),
            t.label() == l,
    {
        if l == 0 {
            Tiles::Sand
        } else if l == 1 {
            Tiles::Grass
        } else if l == 2 {
            Tiles::Water
        } else {
            Tiles::Forest
        }
    }

    /// The tile alphabet as an engine domain: label `t.label()` stands for
    /// tile `t`, and the permissions are exactly `spec_allows`.
    pub fn domain() -> (d: TileDomain)
        ensures
            d.wf(),
            d.label_count() == Tiles::spec_values().len(),
            forall|l: int, m: int|
                0 <= l < 4 && 0 <= m < 4 ==> #[trigger] d.allows(l, m) == Tiles::spec_allows(
                    tile_of(l),
                    tile_of(m),
                ),
    {
        let mut d = TileDomain::new(4);
        d.permit(0, 1);
        d.permit(0, 2);
        d.permit(1, 0);
        d.permit(1, 3);
        d.permit(2, 0);
        d.permit(3, 1);
        proof {
            assert forall|l: int, m: int| 0 <= l < 4 && 0 <= m < 4 implies #[trigger] d.allows(l, m)
                == Tiles::spec_allows(tile_of(l), tile_of(m)) by {
            }
        }
        d
    }
}

} // verus!
