//! Named regions and how they connect.
use vstd::prelude::*;

use crate::float_bits::{whole_bits, F32Bits};
use crate::idmap::IdMap;
use crate::text::str_eq;

verus! {

/// Number of a region.
pub type RegionId = u32;

/// Where one crosses to another region.
#[derive(Clone, Copy, Debug, PartialEq, Eq, Structural)]
pub struct Portal {
    pub to: RegionId,
    pub x: F32Bits,
    pub y: F32Bits,
    pub z: F32Bits,
}

/// One region.
#[derive(Clone, Debug)]
pub struct Region {
    pub id: RegionId,
    pub name: String,
    /// Path of the scene that shows the region.
    pub map_scene: String,
    /// Regions that can be reached directly.
    pub neighbors: Vec<RegionId>,
    /// Where one crosses to each neighbour.
    pub transitions: Vec<Portal>,
    /// Whether the region is populated when a world is made.
    pub procedurally_seeded: bool,
    /// Whether the region's places come with its scene.
    pub scene_authored_pois: bool,
}

impl Region {
    /// Where one crosses to a neighbour; the first entry counts.
    pub open spec fn portal_index(self, to: RegionId, from: int) -> Option<int>
        decreases self.transitions@.len() - from,
    {
        if from < 0 || from >= self.transitions@.len() {
            None
        } else if self.transitions@[from].to == to {
            Some(from)
        } else {
            self.portal_index(to, from + 1)
        }
    }

    /// Where one crosses to a neighbour.
    pub fn portal_to(&self, to: RegionId) -> (r: Option<Portal>)
        ensures
            match r {
                Some(p) => self.portal_index(to, 0) is Some && p
                    == self.transitions@[self.portal_index(to, 0)->0],
                None => self.portal_index(to, 0) is None,
            },
    {
        let mut i: usize = 0;
        while i < self.transitions.len()
            invariant
                i <= self.transitions@.len(),
                self.portal_index(to, 0) == self.portal_index(to, i as int),
            decreases self.transitions@.len() - i,
        {
            if self.transitions[i].to == to {
                return Some(self.transitions[i]);
            }
            i += 1;
        }
        None
    }
}

/// All regions, by number.
#[derive(Debug)]
pub struct RegionGraph {
    regions: IdMap<Region>,
}

impl View for RegionGraph {
    type V = Map<u64, Region>;

    closed spec fn view(&self) -> Map<u64, Region> {
        self.regions@
    }
}

impl RegionGraph {
    /// No regions.
    pub fn new() -> (r: Self)
        ensures
            r@ == Map::<u64, Region>::empty(),
    {
        RegionGraph { regions: IdMap::new() }
    }

    /// Adds a region, in place of one with the same number.
    pub fn insert(&mut self, region: Region)
        ensures
            final(self)@ == old(self)@.insert(region.id as u64, region),
    {
        let _ = self.regions.insert(region.id as u64, region);
    }

    /// The region with the given number.
    pub fn get(&self, id: RegionId) -> (r: Option<&Region>)
        ensures
            match r {
                Some(region) => self@.contains_key(id as u64) && *region == self@[id as u64],
                None => !self@.contains_key(id as u64),
            },
    {
        self.regions.get(id as u64)
    }

    /// How many regions there are.
    pub fn len(&self) -> (r: usize)
        ensures
            r == self@.dom().len(),
    {
        self.regions.len()
    }

    /// The number of a region with the given name; of several, that of the
    /// one filed under the least number.
    pub fn id_for_name(&self, name: &str) -> (r: Option<RegionId>)
        ensures
            match r {
                Some(id) => exists|k: u64| #[trigger]
                    self@.contains_key(k) && self@[k].name@ == name@ && self@[k].id == id
                        && forall|j: u64| #[trigger]
                        self@.contains_key(j) && j < k ==> self@[j].name@ != name@,
                None => forall|k: u64| #[trigger]
                    self@.contains_key(k) ==> self@[k].name@ != name@,
            },
    {
        let n: usize = self.regions.len();
        let ghost keys = self.regions.key_list();
        let mut i: usize = 0;
        while i < n
            invariant
                n == keys.len(),
                keys == self.regions.key_list(),
                crate::idmap::rising(keys),
                forall|k: u64| #[trigger] self.regions@.contains_key(k) <==> keys.contains(k),
                i <= n,
                forall|j: int|
                    0 <= j < i ==> self.regions@[#[trigger] keys[j]].name@ != name@,
            decreases n - i,
        {
            let region = self.regions.value_at(i);
            if str_eq(region.name.as_str(), name) {
                proof {
                    let k = keys[i as int];
                    assert(self@.contains_key(k));
                    assert forall|j: u64| #[trigger] self@.contains_key(j) && j < k implies self@[j].name@
                        != name@ by {
                        let m = keys.index_of(j);
                        assert(0 <= m < keys.len() && keys[m] == j);
                        if m >= i {
                            assert(m == i || keys[i as int] < keys[m]);
                        }
                        assert(self.regions@[keys[m]].name@ != name@);
                    }
                }
                return Some(region.id);
            }
            i += 1;
        }
        proof {
            assert forall|k: u64| #[trigger] self@.contains_key(k) implies self@[k].name@ != name@ by {
                let m = keys.index_of(k);
                assert(0 <= m < keys.len() && keys[m] == k);
                assert(self.regions@[keys[m]].name@ != name@);
            }
        }
        None
    }
}

/// A crossing: where to, and how far east and south of the middle, in metres.
#[derive(Clone, Copy, Debug, PartialEq, Eq, Structural)]
pub struct Link {
    pub to: RegionId,
    pub east: i16,
    pub south: i16,
}

/// A crossing to region `to`.
pub open spec fn link(to: int, east: int, south: int) -> Link {
    Link { to: to as u32, east: east as i16, south: south as i16 }
}

/// What is written down of a region.
pub struct RegionSheet {
    pub name: Seq<char>,
    pub scene: Seq<char>,
    pub links: Seq<Link>,
    pub authored: bool,
}

/// The region is as it is written down: a neighbour and a crossing for every
/// link, the crossing at the height of the middle.
pub open spec fn matches_sheet(r: Region, id: int, sheet: RegionSheet) -> bool {
    &&& r.id == id
    &&& r.name@ == sheet.name
    &&& r.map_scene@ == sheet.scene
    &&& r.neighbors@.len() == sheet.links.len()
    &&& r.transitions@.len() == sheet.links.len()
    &&& forall|i: int|
        0 <= i < sheet.links.len() ==> r.neighbors@[i] == (#[trigger] sheet.links[i]).to
    &&& forall|i: int|
        0 <= i < sheet.links.len() ==> {
            let l = #[trigger] sheet.links[i];
            let p = r.transitions@[i];
            p.to == l.to && p.x.0 == whole_bits(l.east as int) && p.y.0 == 0 && p.z.0 == whole_bits(
                l.south as int,
            )
        }
    &&& r.procedurally_seeded == sheet.authored
    &&& r.scene_authored_pois == sheet.authored
}

/// The regions of the standard world: four test maps in a square, the gorge
/// from west to east, and its branches.
pub open spec fn standard_sheet(id: int) -> RegionSheet {
    if id == 1 {
        RegionSheet {
            name: "map_a"@,
            scene: "res://scenes/test/test_map_1.tscn"@,
            links: seq![link(2, 2000, 0), link(3, 0, 2000)],
            authored: true,
        }
    } else if id == 2 {
        RegionSheet {
            name: "map_b"@,
            scene: "res://scenes/test/test_map_2.tscn"@,
            links: seq![link(1, -2000, 0), link(4, 0, 2000)],
            authored: true,
        }
    } else if id == 3 {
        RegionSheet {
            name: "map_c"@,
            scene: "res://scenes/test/test_map_3.tscn"@,
            links: seq![link(1, 0, -2000), link(4, 2000, 0)],
            authored: true,
        }
    } else if id == 4 {
        RegionSheet {
            name: "map_d"@,
            scene: "res://scenes/test/test_map_4.tscn"@,
            links: seq![link(2, 0, -2000), link(3, -2000, 0)],
            authored: true,
        }
    } else if id == 5 {
        RegionSheet {
            name: "corbett"@,
            scene: "res://scenes/maps/corbett.tscn"@,
            links: seq![link(6, 2200, 0), link(13, 800, 1450), link(14, -1800, 1450)],
            authored: false,
        }
    } else if id == 6 {
        RegionSheet {
            name: "latourell"@,
            scene: "res://scenes/maps/latourell.tscn"@,
            links: seq![link(5, -2200, 0), link(7, 2200, 0)],
            authored: false,
        }
    } else if id == 7 {
        RegionSheet {
            name: "multnomah"@,
            scene: "res://scenes/maps/multnomah.tscn"@,
            links: seq![link(6, -3450, 0), link(8, 3450, 0)],
            authored: false,
        }
    } else if id == 8 {
        RegionSheet {
            name: "bonneville"@,
            scene: "res://scenes/maps/bonneville.tscn"@,
            links: seq![link(7, -2200, 0), link(9, 2200, 0)],
            authored: false,
        }
    } else if id == 9 {
        RegionSheet {
            name: "cascade_locks"@,
            scene: "res://scenes/maps/cascade_locks.tscn"@,
            links: seq![link(8, -1950, 0), link(10, 1950, 0), link(15, 0, 1700)],
            authored: false,
        }
    } else if id == 10 {
        RegionSheet {
            name: "hood_river"@,
            scene: "res://scenes/maps/hood_river.tscn"@,
            links: seq![link(9, -2450, 0), link(11, 2450, 0), link(16, 0, 1950), link(17, 0, -1950)],
            authored: false,
        }
    } else if id == 11 {
        RegionSheet {
            name: "mosier"@,
            scene: "res://scenes/maps/mosier.tscn"@,
            links: seq![link(10, -2700, 0), link(12, 2700, 0)],
            authored: false,
        }
    } else if id == 12 {
        RegionSheet {
            name: "the_dalles"@,
            scene: "res://scenes/maps/the_dalles.tscn"@,
            links: seq![link(11, -3200, 0), link(19, 0, -2450), link(20, 3200, 2000), link(22, 3200, 0)],
            authored: false,
        }
    } else if id == 13 {
        RegionSheet {
            name: "sandy"@,
            scene: "res://scenes/maps/sandy.tscn"@,
            links: seq![link(5, 0, -2200)],
            authored: false,
        }
    } else if id == 14 {
        RegionSheet {
            name: "bull_run"@,
            scene: "res://scenes/maps/bull_run.tscn"@,
            links: seq![link(5, 2450, -2200)],
            authored: false,
        }
    } else if id == 15 {
        RegionSheet {
            name: "eagle_creek"@,
            scene: "res://scenes/maps/eagle_creek.tscn"@,
            links: seq![link(9, 0, -2200)],
            authored: false,
        }
    } else if id == 16 {
        RegionSheet {
            name: "hood_river_valley"@,
            scene: "res://scenes/maps/hood_river_valley.tscn"@,
            links: seq![link(10, 0, -8200), link(18, 0, 8200), link(23, -4700, 0)],
            authored: false,
        }
    } else if id == 17 {
        RegionSheet {
            name: "white_salmon"@,
            scene: "res://scenes/maps/white_salmon.tscn"@,
            links: seq![link(10, 0, 1700)],
            authored: false,
        }
    } else if id == 18 {
        RegionSheet {
            name: "mt_hood"@,
            scene: "res://scenes/maps/mt_hood.tscn"@,
            links: seq![link(16, 0, -3700)],
            authored: false,
        }
    } else if id == 19 {
        RegionSheet {
            name: "klickitat_hold"@,
            scene: "res://scenes/maps/klickitat_hold.tscn"@,
            links: seq![link(12, 0, 2200)],
            authored: false,
        }
    } else if id == 20 {
        RegionSheet {
            name: "umatilla"@,
            scene: "res://scenes/maps/umatilla.tscn"@,
            links: seq![link(12, -3700, 0), link(21, 0, -2700)],
            authored: false,
        }
    } else if id == 21 {
        RegionSheet {
            name: "hanford_spur"@,
            scene: "res://scenes/maps/hanford_spur.tscn"@,
            links: seq![link(20, 0, 2700)],
            authored: false,
        }
    } else if id == 22 {
        RegionSheet {
            name: "celilo"@,
            scene: "res://scenes/maps/celilo.tscn"@,
            links: seq![link(12, -6450, 0)],
            authored: false,
        }
    } else if id == 23 {
        RegionSheet {
            name: "lost_lake"@,
            scene: "res://scenes/maps/lost_lake.tscn"@,
            links: seq![link(16, 2200, 0)],
            authored: false,
        }
    } else {
        RegionSheet { name: ""@, scene: ""@, links: Seq::empty(), authored: false }
    }
}

/// How many regions the standard world has.
pub const STANDARD_REGIONS: u32 = 23;

impl RegionGraph {
    /// Adds a region as it is written down.
    fn add(&mut self, id: RegionId, name: &str, scene: &str, links: Vec<Link>, authored: bool)
        ensures
            final(self)@ == old(self)@.insert(id as u64, final(self)@[id as u64]),
            matches_sheet(
                final(self)@[id as u64],
                id as int,
                (RegionSheet { name: name@, scene: scene@, links: links@, authored }),
            ),
    {
        let mut neighbors: Vec<RegionId> = Vec::new();
        let mut transitions: Vec<Portal> = Vec::new();
        let mut i: usize = 0;
        while i < links.len()
            invariant
                i <= links@.len(),
                neighbors@.len() == i,
                transitions@.len() == i,
                forall|k: int| 0 <= k < i ==> neighbors@[k] == (#[trigger] links@[k]).to,
                forall|k: int|
                    0 <= k < i ==> {
                        let l = #[trigger] links@[k];
                        let p = transitions@[k];
                        p.to == l.to && p.x.0 == whole_bits(l.east as int) && p.y.0 == 0 && p.z.0
                            == whole_bits(l.south as int)
                    },
            decreases links@.len() - i,
        {
            let l = links[i];
            neighbors.push(l.to);
            transitions.push(
                Portal {
                    to: l.to,
                    x: F32Bits::from_whole(l.east as i32),
                    y: F32Bits(0),
                    z: F32Bits::from_whole(l.south as i32),
                },
            );
            i += 1;
        }
        self.insert(
            Region {
                id,
                name: name.to_owned(),
                map_scene: scene.to_owned(),
                neighbors,
                transitions,
                procedurally_seeded: authored,
                scene_authored_pois: authored,
            },
        );
    }

    /// The regions of the standard world.
    pub fn default_test_graph() -> (r: Self)
        ensures
            forall|id: u64| #[trigger] r@.contains_key(id) <==> 1 <= id <= STANDARD_REGIONS,
            forall|id: u64|
                1 <= id <= STANDARD_REGIONS ==> matches_sheet(
                    #[trigger] r@[id],
                    id as int,
                    standard_sheet(id as int),
                ),
    {
        let mut g = RegionGraph::new();
        g.add(
            1,
            "map_a",
            "res://scenes/test/test_map_1.tscn",
            vec![Link { to: 2, east: 2000, south: 0 }, Link { to: 3, east: 0, south: 2000 }],
            true,
        );
        g.add(
            2,
            "map_b",
            "res://scenes/test/test_map_2.tscn",
            vec![Link { to: 1, east: -2000, south: 0 }, Link { to: 4, east: 0, south: 2000 }],
            true,
        );
        g.add(
            3,
            "map_c",
            "res://scenes/test/test_map_3.tscn",
            vec![Link { to: 1, east: 0, south: -2000 }, Link { to: 4, east: 2000, south: 0 }],
            true,
        );
        g.add(
            4,
            "map_d",
            "res://scenes/test/test_map_4.tscn",
            vec![Link { to: 2, east: 0, south: -2000 }, Link { to: 3, east: -2000, south: 0 }],
            true,
        );
        g.add(
            5,
            "corbett",
            "res://scenes/maps/corbett.tscn",
            vec![Link { to: 6, east: 2200, south: 0 }, Link { to: 13, east: 800, south: 1450 }, Link { to: 14, east: -1800, south: 1450 }],
            false,
        );
        g.add(
            6,
            "latourell",
            "res://scenes/maps/latourell.tscn",
            vec![Link { to: 5, east: -2200, south: 0 }, Link { to: 7, east: 2200, south: 0 }],
            false,
        );
        g.add(
            7,
            "multnomah",
            "res://scenes/maps/multnomah.tscn",
            vec![Link { to: 6, east: -3450, south: 0 }, Link { to: 8, east: 3450, south: 0 }],
            false,
        );
        g.add(
            8,
            "bonneville",
            "res://scenes/maps/bonneville.tscn",
            vec![Link { to: 7, east: -2200, south: 0 }, Link { to: 9, east: 2200, south: 0 }],
            false,
        );
        g.add(
            9,
            "cascade_locks",
            "res://scenes/maps/cascade_locks.tscn",
            vec![Link { to: 8, east: -1950, south: 0 }, Link { to: 10, east: 1950, south: 0 }, Link { to: 15, east: 0, south: 1700 }],
            false,
        );
        g.add(
            10,
            "hood_river",
            "res://scenes/maps/hood_river.tscn",
            vec![Link { to: 9, east: -2450, south: 0 }, Link { to: 11, east: 2450, south: 0 }, Link { to: 16, east: 0, south: 1950 }, Link { to: 17, east: 0, south: -1950 }],
            false,
        );
        g.add(
            11,
            "mosier",
            "res://scenes/maps/mosier.tscn",
            vec![Link { to: 10, east: -2700, south: 0 }, Link { to: 12, east: 2700, south: 0 }],
            false,
        );
        g.add(
            12,
            "the_dalles",
            "res://scenes/maps/the_dalles.tscn",
            vec![Link { to: 11, east: -3200, south: 0 }, Link { to: 19, east: 0, south: -2450 }, Link { to: 20, east: 3200, south: 2000 }, Link { to: 22, east: 3200, south: 0 }],
            false,
        );
        g.add(
            13,
            "sandy",
            "res://scenes/maps/sandy.tscn",
            vec![Link { to: 5, east: 0, south: -2200 }],
            false,
        );
        g.add(
            14,
            "bull_run",
            "res://scenes/maps/bull_run.tscn",
            vec![Link { to: 5, east: 2450, south: -2200 }],
            false,
        );
        g.add(
            15,
            "eagle_creek",
            "res://scenes/maps/eagle_creek.tscn",
            vec![Link { to: 9, east: 0, south: -2200 }],
            false,
        );
        g.add(
            16,
            "hood_river_valley",
            "res://scenes/maps/hood_river_valley.tscn",
            vec![Link { to: 10, east: 0, south: -8200 }, Link { to: 18, east: 0, south: 8200 }, Link { to: 23, east: -4700, south: 0 }],
            false,
        );
        g.add(
            17,
            "white_salmon",
            "res://scenes/maps/white_salmon.tscn",
            vec![Link { to: 10, east: 0, south: 1700 }],
            false,
        );
        g.add(
            18,
            "mt_hood",
            "res://scenes/maps/mt_hood.tscn",
            vec![Link { to: 16, east: 0, south: -3700 }],
            false,
        );
        g.add(
            19,
            "klickitat_hold",
            "res://scenes/maps/klickitat_hold.tscn",
            vec![Link { to: 12, east: 0, south: 2200 }],
            false,
        );
        g.add(
            20,
            "umatilla",
            "res://scenes/maps/umatilla.tscn",
            vec![Link { to: 12, east: -3700, south: 0 }, Link { to: 21, east: 0, south: -2700 }],
            false,
        );
        g.add(
            21,
            "hanford_spur",
            "res://scenes/maps/hanford_spur.tscn",
            vec![Link { to: 20, east: 0, south: 2700 }],
            false,
        );
        g.add(
            22,
            "celilo",
            "res://scenes/maps/celilo.tscn",
            vec![Link { to: 12, east: -6450, south: 0 }],
            false,
        );
        g.add(
            23,
            "lost_lake",
            "res://scenes/maps/lost_lake.tscn",
            vec![Link { to: 16, east: 2200, south: 0 }],
            false,
        );
        g
    }
}

/// Every crossing of the standard world leads to a region of it, and a
/// crossing leads back.
pub proof fn law_standard_regions_connect_both_ways(id: int, i: int)
    requires
        1 <= id <= STANDARD_REGIONS,
        0 <= i < standard_sheet(id).links.len(),
    ensures
        1 <= standard_sheet(id).links[i].to <= STANDARD_REGIONS,
        exists|j: int|
            0 <= j < standard_sheet(standard_sheet(id).links[i].to as int).links.len() && (
            #[trigger] standard_sheet(standard_sheet(id).links[i].to as int).links[j]).to == id,
{
    let back = standard_sheet(standard_sheet(id).links[i].to as int).links;
    if id == 1 {
        if i == 0 {
            assert(back[0].to == 1);
        }
        if i == 1 {
            assert(back[0].to == 1);
        }
    } else if id == 2 {
        if i == 0 {
            assert(back[0].to == 2);
        }
        if i == 1 {
            assert(back[0].to == 2);
        }
    } else if id == 3 {
        if i == 0 {
            assert(back[1].to == 3);
        }
        if i == 1 {
            assert(back[1].to == 3);
        }
    } else if id == 4 {
        if i == 0 {
            assert(back[1].to == 4);
        }
        if i == 1 {
            assert(back[1].to == 4);
        }
    } else if id == 5 {
        if i == 0 {
            assert(back[0].to == 5);
        }
        if i == 1 {
            assert(back[0].to == 5);
        }
        if i == 2 {
            assert(back[0].to == 5);
        }
    } else if id == 6 {
        if i == 0 {
            assert(back[0].to == 6);
        }
        if i == 1 {
            assert(back[0].to == 6);
        }
    } else if id == 7 {
        if i == 0 {
            assert(back[1].to == 7);
        }
        if i == 1 {
            assert(back[0].to == 7);
        }
    } else if id == 8 {
        if i == 0 {
            assert(back[1].to == 8);
        }
        if i == 1 {
            assert(back[0].to == 8);
        }
    } else if id == 9 {
        if i == 0 {
            assert(back[1].to == 9);
        }
        if i == 1 {
            assert(back[0].to == 9);
        }
        if i == 2 {
            assert(back[0].to == 9);
        }
    } else if id == 10 {
        if i == 0 {
            assert(back[1].to == 10);
        }
        if i == 1 {
            assert(back[0].to == 10);
        }
        if i == 2 {
            assert(back[0].to == 10);
        }
        if i == 3 {
            assert(back[0].to == 10);
        }
    } else if id == 11 {
        if i == 0 {
            assert(back[1].to == 11);
        }
        if i == 1 {
            assert(back[0].to == 11);
        }
    } else if id == 12 {
        if i == 0 {
            assert(back[1].to == 12);
        }
        if i == 1 {
            assert(back[0].to == 12);
        }
        if i == 2 {
            assert(back[0].to == 12);
        }
        if i == 3 {
            assert(back[0].to == 12);
        }
    } else if id == 13 {
        assert(back[1].to == 13);
    } else if id == 14 {
        assert(back[2].to == 14);
    } else if id == 15 {
        assert(back[2].to == 15);
    } else if id == 16 {
        if i == 0 {
            assert(back[2].to == 16);
        }
        if i == 1 {
            assert(back[0].to == 16);
        }
        if i == 2 {
            assert(back[0].to == 16);
        }
    } else if id == 17 {
        assert(back[3].to == 17);
    } else if id == 18 {
        assert(back[1].to == 18);
    } else if id == 19 {
        assert(back[1].to == 19);
    } else if id == 20 {
        if i == 0 {
            assert(back[2].to == 20);
        }
        if i == 1 {
            assert(back[0].to == 20);
        }
    } else if id == 21 {
        assert(back[1].to == 21);
    } else if id == 22 {
        assert(back[3].to == 22);
    } else if id == 23 {
        assert(back[2].to == 23);
    }
}

/// One crosses to a neighbour at the first crossing that leads there.
pub proof fn law_first_crossing_counts(r: Region, to: RegionId, from: int, i: int)
    requires
        0 <= from <= i < r.transitions@.len(),
        r.transitions@[i].to == to,
        forall|j: int| from <= j < i ==> (#[trigger] r.transitions@[j]).to != to,
    ensures
        r.portal_index(to, from) == Some(i),
    decreases i - from,
{
    if from < i {
        assert(r.transitions@[from].to != to);
        law_first_crossing_counts(r, to, from + 1, i);
    }
}

/// Crossings of the standard world lie away from the middle, and one comes out
/// on the side that faces the one left.
pub proof fn law_crossings_face_each_other(id: int, i: int, j: int)
    requires
        1 <= id <= 23,
        0 <= i < standard_sheet(id).links.len(),
        0 <= j < standard_sheet(standard_sheet(id).links[i].to as int).links.len(),
        standard_sheet(standard_sheet(id).links[i].to as int).links[j].to == id,
    ensures
        ({
            let out = standard_sheet(id).links[i];
            let back = standard_sheet(out.to as int).links[j];
            &&& 1 <= out.to <= 23 && out.to != id
            &&& !(out.east == 0 && out.south == 0)
            &&& out.east > 0 ==> back.east <= 0
            &&& out.east < 0 ==> back.east >= 0
            &&& out.south > 0 ==> back.south <= 0
            &&& out.south < 0 ==> back.south >= 0
            &&& (out.east > 0 && back.east < 0) || (out.east < 0 && back.east > 0) || (out.south > 0
                && back.south < 0) || (out.south < 0 && back.south > 0)
            &&& standard_sheet(id).authored <==> id <= 4
            &&& standard_sheet(id).authored == standard_sheet(out.to as int).authored
        }),
{
}

} // verus!
