use vstd::prelude::*;
use crate::opening::{
    ParsedPlacement, OpeningBranch, BranchView, texts, maps_text, vec_views, mirrored_branch,
    create_mirror_branch, target_heights_of, compute_target_heights, mirror_map,
    law_mirror_row_twice,
};
use crate::text::ascii_lower;
use crate::opening::board_map::{map_fits, map_placements, parse_board_map, board_map_fits};

verus! {

// ----------------------------------------------------------------------------
// Reading the maps of a branch
// ----------------------------------------------------------------------------

/// Every board map with rows can be read.
pub open spec fn maps_fit(ms: Seq<Seq<Seq<char>>>) -> bool {
    forall|i: int| 0 <= i < ms.len() && (#[trigger] ms[i]).len() > 0 ==> map_fits(ms[i])
}

/// A branch that gives a single map and no list of maps gets that map as its list.
pub open spec fn fill_maps(b: BranchView) -> BranchView {
    if b.board_maps.len() == 0 && b.board_map.len() > 0 {
        BranchView {
            conditions: b.conditions,
            board_map: b.board_map,
            board_maps: seq![b.board_map],
            parsed_placements: b.parsed_placements,
            target_heights: b.target_heights,
            parsed_placements_list: b.parsed_placements_list,
            target_heights_list: b.target_heights_list,
        }
    } else {
        b
    }
}

/// A branch with what its maps give: the placements and target heights of
/// each map, and the first map as its single map with its placements and heights.
pub open spec fn read_branch(b: BranchView) -> BranchView {
    let ms = b.board_maps;
    BranchView {
        conditions: b.conditions,
        board_map: if ms.len() > 0 {
            ms[0]
        } else {
            b.board_map
        },
        board_maps: ms,
        parsed_placements: if ms.len() > 0 {
            map_placements(ms[0])
        } else {
            b.parsed_placements
        },
        target_heights: if ms.len() > 0 {
            target_heights_of(ms[0])
        } else {
            b.target_heights
        },
        parsed_placements_list: ms.map_values(|m: Seq<Seq<char>>| map_placements(m)),
        target_heights_list: ms.map_values(|m: Seq<Seq<char>>| target_heights_of(m)),
    }
}

fn clone_rows(v: &Vec<String>) -> (r: Vec<String>)
    ensures
        texts(r@) == texts(v@),
{
    let r = v.clone();
    assert(texts(r@) =~= texts(v@));
    r
}

fn clone_maps(v: &Vec<Vec<String>>) -> (r: Vec<Vec<String>>)
    ensures
        maps_text(r@) == maps_text(v@),
{
    let mut out: Vec<Vec<String>> = Vec::new();
    let mut i: usize = 0;
    while i < v.len()
        invariant
            i <= v@.len(),
            maps_text(out@) == maps_text(v@).take(i as int),
        decreases v@.len() - i,
    {
        let ghost before = out@;
        let m = clone_rows(&v[i]);
        out.push(m);
        assert(maps_text(out@) =~= maps_text(before).push(texts(m@)));
        assert(maps_text(v@)[i as int] == texts(v@[i as int]@));
        assert(maps_text(out@) =~= maps_text(v@).take(i as int + 1));
        i += 1;
    }
    assert(maps_text(v@).take(v@.len() as int) =~= maps_text(v@));
    out
}

fn clone_placement_lists(v: &Vec<Vec<ParsedPlacement>>) -> (r: Vec<Vec<ParsedPlacement>>)
    ensures
        vec_views(r@) == vec_views(v@),
{
    let mut out: Vec<Vec<ParsedPlacement>> = Vec::new();
    let mut i: usize = 0;
    while i < v.len()
        invariant
            i <= v@.len(),
            vec_views(out@) == vec_views(v@).take(i as int),
        decreases v@.len() - i,
    {
        let ghost before = out@;
        let m = v[i].clone();
        assert(m@ =~= v@[i as int]@);
        out.push(m);
        assert(vec_views(out@) =~= vec_views(before).push(m@));
        assert(vec_views(v@)[i as int] == v@[i as int]@);
        assert(vec_views(out@) =~= vec_views(v@).take(i as int + 1));
        i += 1;
    }
    assert(vec_views(v@).take(v@.len() as int) =~= vec_views(v@));
    out
}

fn clone_height_lists(v: &Vec<Vec<i32>>) -> (r: Vec<Vec<i32>>)
    ensures
        vec_views(r@) == vec_views(v@),
{
    let mut out: Vec<Vec<i32>> = Vec::new();
    let mut i: usize = 0;
    while i < v.len()
        invariant
            i <= v@.len(),
            vec_views(out@) == vec_views(v@).take(i as int),
        decreases v@.len() - i,
    {
        let ghost before = out@;
        let m = v[i].clone();
        assert(m@ =~= v@[i as int]@);
        out.push(m);
        assert(vec_views(out@) =~= vec_views(before).push(m@));
        assert(vec_views(v@)[i as int] == v@[i as int]@);
        assert(vec_views(out@) =~= vec_views(v@).take(i as int + 1));
        i += 1;
    }
    assert(vec_views(v@).take(v@.len() as int) =~= vec_views(v@));
    out
}

/// A copy of a branch with its list of maps filled in: see `fill_maps`.
fn filled_branch(b: &OpeningBranch) -> (r: OpeningBranch)
    ensures
        r@ == fill_maps(b@),
{
    let board_maps = if b.board_maps.len() == 0 && b.board_map.len() > 0 {
        let mut ms: Vec<Vec<String>> = Vec::new();
        ms.push(clone_rows(&b.board_map));
        assert(maps_text(ms@) =~= seq![b@.board_map]);
        ms
    } else {
        clone_maps(&b.board_maps)
    };
    let pp = b.parsed_placements.clone();
    let th = b.target_heights.clone();
    assert(pp@ =~= b.parsed_placements@);
    assert(th@ =~= b.target_heights@);
    OpeningBranch {
        conditions: clone_rows(&b.conditions),
        board_map: clone_rows(&b.board_map),
        board_maps,
        parsed_placements: pp,
        target_heights: th,
        parsed_placements_list: clone_placement_lists(&b.parsed_placements_list),
        target_heights_list: clone_height_lists(&b.target_heights_list),
    }
}

/// Reads every map of a list: `None` when a map with rows cannot be read,
/// else the placements and the target heights of each map.
fn read_maps(maps: &Vec<Vec<String>>) -> (r: Option<(Vec<Vec<ParsedPlacement>>, Vec<Vec<i32>>)>)
    ensures
        r is Some <==> maps_fit(maps_text(maps@)),
        r is Some ==> vec_views((r->0).0@) == maps_text(maps@).map_values(|m: Seq<Seq<char>>| map_placements(m))
            && vec_views((r->0).1@) == maps_text(maps@).map_values(|m: Seq<Seq<char>>| target_heights_of(m)),
{
    let ghost ms = maps_text(maps@);
    let mut placements: Vec<Vec<ParsedPlacement>> = Vec::new();
    let mut heights: Vec<Vec<i32>> = Vec::new();
    let mut i: usize = 0;
    while i < maps.len()
        invariant
            ms == maps_text(maps@),
            i <= maps@.len(),
            forall|j: int| 0 <= j < i && (#[trigger] ms[j]).len() > 0 ==> map_fits(ms[j]),
            vec_views(placements@) == ms.map_values(|m: Seq<Seq<char>>| map_placements(m)).take(i as int),
            vec_views(heights@) == ms.map_values(|m: Seq<Seq<char>>| target_heights_of(m)).take(i as int),
        decreases maps@.len() - i,
    {
        let ghost pb = placements@;
        let ghost hb = heights@;
        let map = &maps[i];
        assert(ms[i as int] == texts(map@));
        if map.len() > 0 {
            if !board_map_fits(map.as_slice()) {
                return None;
            }
            let parsed = parse_board_map(map.as_slice());
            let h = compute_target_heights(map.as_slice());
            match parsed {
                Some(p) => {
                    placements.push(p);
                },
                None => {
                    placements.push(Vec::new());
                },
            }
            heights.push(h);
        } else {
            placements.push(Vec::new());
            let h: Vec<i32> = Vec::new();
            heights.push(h);
            assert(target_heights_of(ms[i as int]) =~= Seq::<i32>::empty());
        }
        assert(vec_views(placements@) =~= vec_views(pb).push(map_placements(ms[i as int])));
        assert(vec_views(heights@) =~= vec_views(hb).push(target_heights_of(ms[i as int])));
        assert(vec_views(placements@) =~= ms.map_values(|m: Seq<Seq<char>>| map_placements(m)).take(i as int + 1));
        assert(vec_views(heights@) =~= ms.map_values(|m: Seq<Seq<char>>| target_heights_of(m)).take(i as int + 1));
        i += 1;
    }
    assert(ms.map_values(|m: Seq<Seq<char>>| map_placements(m)).take(maps@.len() as int) =~= ms.map_values(
        |m: Seq<Seq<char>>| map_placements(m),
    ));
    assert(ms.map_values(|m: Seq<Seq<char>>| target_heights_of(m)).take(maps@.len() as int) =~= ms.map_values(
        |m: Seq<Seq<char>>| target_heights_of(m),
    ));
    Some((placements, heights))
}

/// The placements and target heights of the first map of a list, which can be read.
fn read_first(map: &Vec<String>) -> (r: (Vec<ParsedPlacement>, Vec<i32>))
    requires
        map@.len() > 0 ==> map_fits(texts(map@)),
    ensures
        r.0@ == map_placements(texts(map@)),
        r.1@ == target_heights_of(texts(map@)),
{
    if map.len() == 0 {
        let p: Vec<ParsedPlacement> = Vec::new();
        let h: Vec<i32> = Vec::new();
        assert(target_heights_of(texts(map@)) =~= Seq::<i32>::empty());
        return (p, h);
    }
    let parsed = parse_board_map(map.as_slice());
    let h = compute_target_heights(map.as_slice());
    match parsed {
        Some(p) => (p, h),
        None => (Vec::new(), h),
    }
}

/// Reads the maps of a branch: `None` when one of them with rows cannot be
/// read, else the branch of `read_branch`.
pub fn read_branch_maps(b: &OpeningBranch) -> (r: Option<OpeningBranch>)
    ensures
        r is Some <==> maps_fit(b@.board_maps),
        r is Some ==> r->0@ == read_branch(b@),
{
    let lists = read_maps(&b.board_maps);
    match lists {
        None => None,
        Some((pl, hl)) => {
            let ghost ms = b@.board_maps;
            let (board_map, pp, th) = if b.board_maps.len() > 0 {
                assert(ms[0] == texts(b.board_maps@[0]@));
                let (p, h) = read_first(&b.board_maps[0]);
                (clone_rows(&b.board_maps[0]), p, h)
            } else {
                let p = b.parsed_placements.clone();
                let h = b.target_heights.clone();
                assert(p@ =~= b.parsed_placements@);
                assert(h@ =~= b.target_heights@);
                (clone_rows(&b.board_map), p, h)
            };
            Some(
                OpeningBranch {
                    conditions: clone_rows(&b.conditions),
                    board_map,
                    board_maps: clone_maps(&b.board_maps),
                    parsed_placements: pp,
                    target_heights: th,
                    parsed_placements_list: pl,
                    target_heights_list: hl,
                },
            )
        },
    }
}

// ----------------------------------------------------------------------------
// The maps of an opening
// ----------------------------------------------------------------------------

/// The board maps of an opening and what is read from them (the part of an
/// opening template that its maps decide).
pub struct OpeningLayout {
    pub board_map: Vec<String>,
    pub board_maps: Vec<Vec<String>>,
    pub branches: Vec<OpeningBranch>,
    pub parsed_placements: Vec<ParsedPlacement>,
    pub target_heights: Vec<i32>,
    pub parsed_placements_list: Vec<Vec<ParsedPlacement>>,
    pub target_heights_list: Vec<Vec<i32>>,
}

/// What an `OpeningLayout` holds, as texts and sequences.
pub struct LayoutView {
    pub board_map: Seq<Seq<char>>,
    pub board_maps: Seq<Seq<Seq<char>>>,
    pub branches: Seq<BranchView>,
    pub parsed_placements: Seq<ParsedPlacement>,
    pub target_heights: Seq<i32>,
    pub parsed_placements_list: Seq<Seq<ParsedPlacement>>,
    pub target_heights_list: Seq<Seq<i32>>,
}

/// The views of a list of branches.
pub open spec fn branch_views(v: Seq<OpeningBranch>) -> Seq<BranchView> {
    v.map_values(|b: OpeningBranch| b@)
}

impl View for OpeningLayout {
    type V = LayoutView;

    open spec fn view(&self) -> LayoutView {
        LayoutView {
            board_map: texts(self.board_map@),
            board_maps: maps_text(self.board_maps@),
            branches: branch_views(self.branches@),
            parsed_placements: self.parsed_placements@,
            target_heights: self.target_heights@,
            parsed_placements_list: vec_views(self.parsed_placements_list@),
            target_heights_list: vec_views(self.target_heights_list@),
        }
    }
}

/// The opening's list of maps: its single map when only that is given.
pub open spec fn root_maps(l: LayoutView) -> Seq<Seq<Seq<char>>> {
    if l.board_maps.len() == 0 && l.board_map.len() > 0 {
        seq![l.board_map]
    } else {
        l.board_maps
    }
}

/// A branch without conditions over the given maps, nothing read yet.
pub open spec fn plain_branch(board_map: Seq<Seq<char>>, maps: Seq<Seq<Seq<char>>>) -> BranchView {
    BranchView {
        conditions: Seq::empty(),
        board_map,
        board_maps: maps,
        parsed_placements: Seq::empty(),
        target_heights: Seq::empty(),
        parsed_placements_list: Seq::empty(),
        target_heights_list: Seq::empty(),
    }
}

/// The opening's branches as given, or, when it gives none but has maps, one
/// branch without conditions over its maps.
pub open spec fn given_branches(l: LayoutView) -> Seq<BranchView> {
    if l.branches.len() == 0 && root_maps(l).len() > 0 {
        seq![plain_branch(l.board_map, root_maps(l))]
    } else {
        l.branches
    }
}

/// The given branches with their lists of maps filled in, followed by their
/// mirror images in the same order.
pub open spec fn all_branches(l: LayoutView) -> Seq<BranchView> {
    let f = given_branches(l).map_values(|b: BranchView| fill_maps(b));
    f + f.map_values(|b: BranchView| mirrored_branch(b))
}

/// Every map that is read, in the branches and at the root, can be read.
pub open spec fn layout_fits(l: LayoutView) -> bool {
    &&& maps_fit(root_maps(l))
    &&& forall|i: int| 0 <= i < all_branches(l).len() ==> maps_fit(#[trigger] all_branches(l)[i].board_maps)
}

/// An opening once its maps are read: the branches of `all_branches`, each
/// read, and at the root the placements and heights of each map and of the first.
pub open spec fn prepared_layout(l: LayoutView) -> LayoutView {
    let ms = root_maps(l);
    LayoutView {
        board_map: if ms.len() > 0 {
            ms[0]
        } else {
            l.board_map
        },
        board_maps: ms,
        branches: all_branches(l).map_values(|b: BranchView| read_branch(b)),
        parsed_placements: if ms.len() > 0 {
            map_placements(ms[0])
        } else {
            l.parsed_placements
        },
        target_heights: if ms.len() > 0 {
            target_heights_of(ms[0])
        } else {
            l.target_heights
        },
        parsed_placements_list: ms.map_values(|m: Seq<Seq<char>>| map_placements(m)),
        target_heights_list: ms.map_values(|m: Seq<Seq<char>>| target_heights_of(m)),
    }
}

/// Reads the maps of an opening: `None` when a map with rows cannot be read
/// (see `layout_fits`), else the opening of `prepared_layout`.
pub fn prepare_layout(l: OpeningLayout) -> (r: Option<OpeningLayout>)
    ensures
        r is Some <==> layout_fits(l@),
        r is Some ==> r->0@ == prepared_layout(l@),
{
    let ghost lv = l@;
    let OpeningLayout {
        board_map,
        board_maps,
        branches,
        parsed_placements,
        target_heights,
        parsed_placements_list: _,
        target_heights_list: _,
    } = l;
    // The opening's list of maps.
    let maps = if board_maps.len() == 0 && board_map.len() > 0 {
        let mut ms: Vec<Vec<String>> = Vec::new();
        ms.push(clone_rows(&board_map));
        assert(maps_text(ms@) =~= seq![lv.board_map]);
        ms
    } else {
        board_maps
    };
    let ghost root = root_maps(lv);
    assert(maps_text(maps@) == root);
    // The branches as given.
    let given = if branches.len() == 0 && maps.len() > 0 {
        let b = OpeningBranch {
            conditions: Vec::new(),
            board_map: clone_rows(&board_map),
            board_maps: clone_maps(&maps),
            parsed_placements: Vec::new(),
            target_heights: Vec::new(),
            parsed_placements_list: Vec::new(),
            target_heights_list: Vec::new(),
        };
        proof {
            assert(texts(b.conditions@) =~= Seq::<Seq<char>>::empty());
            assert(vec_views(b.parsed_placements_list@) =~= Seq::<Seq<ParsedPlacement>>::empty());
            assert(vec_views(b.target_heights_list@) =~= Seq::<Seq<i32>>::empty());
            assert(b@ == plain_branch(lv.board_map, root));
        }
        let mut g: Vec<OpeningBranch> = Vec::new();
        g.push(b);
        assert(branch_views(g@) =~= given_branches(lv));
        g
    } else {
        branches
    };
    assert(branch_views(given@) == given_branches(lv));
    // Their lists of maps filled in.
    let ghost filled_spec = given_branches(lv).map_values(|b: BranchView| fill_maps(b));
    let mut filled: Vec<OpeningBranch> = Vec::new();
    let mut i: usize = 0;
    while i < given.len()
        invariant
            i <= given@.len(),
            branch_views(given@) == given_branches(lv),
            filled_spec == given_branches(lv).map_values(|b: BranchView| fill_maps(b)),
            branch_views(filled@) == filled_spec.take(i as int),
        decreases given@.len() - i,
    {
        let ghost before = filled@;
        let b = filled_branch(&given[i]);
        filled.push(b);
        proof {
            assert(branch_views(given@)[i as int] == given@[i as int]@);
            assert(branch_views(filled@) =~= branch_views(before).push(b@));
            assert(branch_views(filled@) =~= filled_spec.take(i as int + 1));
        }
        i += 1;
    }
    assert(filled_spec.take(given@.len() as int) =~= filled_spec);
    // Every branch, then every mirror image, read.
    let ghost all = all_branches(lv);
    let ghost read_spec = all.map_values(|b: BranchView| read_branch(b));
    let n = filled.len();
    assert(all.len() == 2 * n);
    let mut out: Vec<OpeningBranch> = Vec::new();
    let mut j: usize = 0;
    while j < n
        invariant
            n == filled@.len(),
            j <= n,
            lv == l@,
            all == all_branches(lv),
            read_spec == all.map_values(|b: BranchView| read_branch(b)),
            all.len() == 2 * n,
            forall|k: int| 0 <= k < n ==> #[trigger] all[k] == filled@[k]@,
            forall|k: int| 0 <= k < j ==> maps_fit(#[trigger] all[k].board_maps),
            branch_views(out@) == read_spec.take(j as int),
        decreases n - j,
    {
        let ghost before = out@;
        let read = read_branch_maps(&filled[j]);
        match read {
            None => {
                assert(!maps_fit(all[j as int].board_maps));
                return None;
            },
            Some(rb) => {
                out.push(rb);
                proof {
                    assert(branch_views(out@) =~= branch_views(before).push(rb@));
                    assert(branch_views(out@) =~= read_spec.take(j as int + 1));
                }
            },
        }
        j += 1;
    }
    let mut k: usize = 0;
    while k < n
        invariant
            n == filled@.len(),
            k <= n,
            lv == l@,
            all == all_branches(lv),
            read_spec == all.map_values(|b: BranchView| read_branch(b)),
            all.len() == 2 * n,
            forall|m: int| 0 <= m < n ==> #[trigger] all[m + n] == mirrored_branch(filled@[m]@),
            forall|m: int| 0 <= m < n + k ==> maps_fit(#[trigger] all[m].board_maps),
            branch_views(out@) == read_spec.take(n + k),
        decreases n - k,
    {
        let ghost before = out@;
        let mb = create_mirror_branch(&filled[k]);
        let read = read_branch_maps(&mb);
        match read {
            None => {
                assert(!maps_fit(all[k + n].board_maps));
                return None;
            },
            Some(rb) => {
                out.push(rb);
                proof {
                    assert(all[k + n] == mirrored_branch(filled@[k as int]@));
                    assert(read_spec[k + n] == rb@);
                    assert(branch_views(out@) =~= branch_views(before).push(rb@));
                    assert(branch_views(out@) =~= read_spec.take(n + k + 1));
                }
            },
        }
        k += 1;
    }
    assert(read_spec.take(2 * n) =~= read_spec);
    // The root's maps.
    let lists = read_maps(&maps);
    match lists {
        None => None,
        Some((pl, hl)) => {
            let (bm, pp, th) = if maps.len() > 0 {
                assert(root[0] == texts(maps@[0]@));
                let (p, h) = read_first(&maps[0]);
                (clone_rows(&maps[0]), p, h)
            } else {
                (board_map, parsed_placements, target_heights)
            };
            let r = OpeningLayout {
                board_map: bm,
                board_maps: maps,
                branches: out,
                parsed_placements: pp,
                target_heights: th,
                parsed_placements_list: pl,
                target_heights_list: hl,
            };
            proof {
                assert(forall|m: int| 0 <= m < all.len() ==> maps_fit(#[trigger] all[m].board_maps));
            }
            Some(r)
        },
    }
}

// ----------------------------------------------------------------------------
// Laws
// ----------------------------------------------------------------------------

/// Law: an opening read from its maps has each given branch (its list of
/// maps filled in) followed, in the same order, by the mirror image of each,
/// all of them read.
pub proof fn law_mirror_branches(l: LayoutView)
    ensures
        prepared_layout(l).branches.len() == 2 * given_branches(l).len(),
        forall|i: int|
            0 <= i < given_branches(l).len() ==> {
                let b = fill_maps(#[trigger] given_branches(l)[i]);
                &&& prepared_layout(l).branches[i] == read_branch(b)
                &&& prepared_layout(l).branches[i + given_branches(l).len()] == read_branch(mirrored_branch(b))
            },
{
    let n = given_branches(l).len();
    let f = given_branches(l).map_values(|b: BranchView| fill_maps(b));
    assert forall|i: int| 0 <= i < n implies {
        let b = fill_maps(#[trigger] given_branches(l)[i]);
        &&& prepared_layout(l).branches[i] == read_branch(b)
        &&& prepared_layout(l).branches[i + n] == read_branch(mirrored_branch(b))
    } by {
        assert(all_branches(l)[i] == f[i]);
        assert(all_branches(l)[i + n] == mirrored_branch(f[i]));
    }
}

/// Every row of every map in ASCII lower case.
pub open spec fn lower_maps(ms: Seq<Seq<Seq<char>>>) -> Seq<Seq<Seq<char>>> {
    ms.map_values(|m: Seq<Seq<char>>| m.map_values(|r: Seq<char>| r.map_values(|c: char| ascii_lower(c))))
}

/// Law: the mirror image of the mirror image of a branch has the branch's
/// maps back, in ASCII lower case.
pub proof fn law_mirror_branch_twice(b: BranchView)
    ensures
        mirrored_branch(mirrored_branch(b)).board_maps == lower_maps(b.board_maps),
{
    let once = mirrored_branch(b).board_maps;
    let twice = mirrored_branch(mirrored_branch(b)).board_maps;
    assert forall|i: int| 0 <= i < b.board_maps.len() implies #[trigger] twice[i] == lower_maps(b.board_maps)[i] by {
        let m = b.board_maps[i];
        assert(once[i] == mirror_map(m));
        assert(twice[i] == mirror_map(mirror_map(m)));
        assert forall|r: int| 0 <= r < m.len() implies #[trigger] mirror_map(mirror_map(m))[r] == m[r].map_values(
            |c: char| ascii_lower(c),
        ) by {
            law_mirror_row_twice(m[r]);
        }
        assert(mirror_map(mirror_map(m)) =~= m.map_values(|r: Seq<char>| r.map_values(|c: char| ascii_lower(c))));
    }
    assert(twice =~= lower_maps(b.board_maps));
}

} // verus!
