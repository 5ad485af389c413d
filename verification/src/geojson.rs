//! Polygon geometry in GeoJSON.
use vstd::prelude::*;

use crate::drawing::Point;
use crate::folds::present;
use crate::geo::point_views;
use crate::json::{
    json_items, json_member, json_number, json_of, json_text, json_tree, parse_json, JsonTree,
};
use crate::number::Number;
use crate::words::same_text;

verus! {

/// The number that a value is, if it is one.
pub open spec fn number_in(tree: JsonTree) -> Option<Number> {
    match tree {
        JsonTree::Number(n) => n,
        _ => None,
    }
}

/// The position that a value is: a list that starts with two numbers.
pub open spec fn position_in(tree: JsonTree) -> Option<Point> {
    match tree {
        JsonTree::List(items) => if items.len() >= 2 {
            match (number_in(items[0]), number_in(items[1])) {
                (Some(x), Some(y)) => Some(Point { x, y }),
                _ => None,
            }
        } else {
            None
        },
        _ => None,
    }
}

/// The ring that a value is: a list that holds at least two positions. What
/// else it holds is passed over.
pub open spec fn ring_in(tree: JsonTree) -> Option<Seq<Point>> {
    match tree {
        JsonTree::List(items) => {
            let points = present(items.map_values(|t: JsonTree| position_in(t)));
            if points.len() >= 2 {
                Some(points)
            } else {
                None
            }
        },
        _ => None,
    }
}

/// The rings of a polygon's coordinates.
pub open spec fn rings_in(tree: JsonTree) -> Seq<Seq<Point>> {
    match tree {
        JsonTree::List(items) => present(items.map_values(|t: JsonTree| ring_in(t))),
        _ => Seq::empty(),
    }
}

/// The rings of the first `n` polygons.
pub open spec fn rings_of_polygons(polygons: Seq<JsonTree>, n: nat) -> Seq<Seq<Point>>
    decreases n,
{
    if n == 0 {
        Seq::empty()
    } else {
        rings_of_polygons(polygons, (n - 1) as nat) + rings_in(polygons[n - 1])
    }
}

/// A member of an object.
pub open spec fn member(tree: JsonTree, key: Seq<char>) -> Option<JsonTree> {
    match tree {
        JsonTree::Object(m) => if m.dom().contains(key) {
            Some(m[key])
        } else {
            None
        },
        _ => None,
    }
}

/// Whether a value is an object of a type.
pub open spec fn has_type(tree: JsonTree, name: Seq<char>) -> bool {
    member(tree, "type"@) == Some(JsonTree::Text(name))
}

/// The rings of a geometry: those of a polygon, or of all the polygons of a
/// multipolygon.
pub open spec fn rings_of_geometry(tree: JsonTree) -> Seq<Seq<Point>> {
    match member(tree, "coordinates"@) {
        Some(coordinates) => if has_type(tree, "Polygon"@) {
            rings_in(coordinates)
        } else if has_type(tree, "MultiPolygon"@) {
            match coordinates {
                JsonTree::List(polygons) => rings_of_polygons(polygons, polygons.len()),
                _ => Seq::empty(),
            }
        } else {
            Seq::empty()
        },
        None => Seq::empty(),
    }
}

/// The rings of a GeoJSON text: those of its geometry, or of the geometry of a
/// feature. A text that is not JSON has none.
pub open spec fn geojson_rings(text: Seq<char>) -> Seq<Seq<Point>> {
    match json_of(text) {
        Some(tree) => rings_of_value(tree),
        None => Seq::empty(),
    }
}

/// The rings of a parsed value.
pub open spec fn rings_of_value(tree: JsonTree) -> Seq<Seq<Point>> {
    if has_type(tree, "Feature"@) {
        match member(tree, "geometry"@) {
            Some(g) => rings_of_geometry(g),
            None => Seq::empty(),
        }
    } else {
        rings_of_geometry(tree)
    }
}

fn find_member<'a>(value: &'a serde_json::Value, key: &str) -> (r: Option<&'a serde_json::Value>)
    ensures
        r is Some <==> member(json_tree(*value), key@) is Some,
        r matches Some(v) ==> member(json_tree(*value), key@) == Some(json_tree(*v)),
{
    json_member(value, key)
}

fn is_type(value: &serde_json::Value, name: &str) -> (r: bool)
    ensures
        r == has_type(json_tree(*value), name@),
{
    match find_member(value, "type") {
        Some(t) => match json_text(t) {
            Some(s) => same_text(s, name),
            None => false,
        },
        None => false,
    }
}

fn read_position(value: &serde_json::Value) -> (r: Option<Point>)
    ensures
        r == position_in(json_tree(*value)),
{
    let items = match json_items(value) {
        Some(v) => v,
        None => {
            return None;
        },
    };
    if items.len() < 2 {
        return None;
    }
    match (json_number(&items[0]), json_number(&items[1])) {
        (Some(x), Some(y)) => Some(Point { x, y }),
        _ => None,
    }
}

fn read_ring(value: &serde_json::Value) -> (r: Option<Vec<Point>>)
    ensures
        r is Some <==> ring_in(json_tree(*value)) is Some,
        r matches Some(v) ==> ring_in(json_tree(*value)) == Some(v@),
{
    let items = match json_items(value) {
        Some(v) => v,
        None => {
            return None;
        },
    };
    let ghost all = json_tree(*value)->List_0.map_values(|t: JsonTree| position_in(t));
    let mut points: Vec<Point> = Vec::new();
    let mut i: usize = 0;
    assert(all.take(0) =~= Seq::<Option<Point>>::empty());
    while i < items.len()
        invariant
            i <= items.len(),
            items@.map_values(|item: serde_json::Value| json_tree(item)) == json_tree(
                *value,
            )->List_0,
            all == json_tree(*value)->List_0.map_values(|t: JsonTree| position_in(t)),
            points@ == present(all.take(i as int)),
        decreases items.len() - i,
    {
        assert(all.take(i + 1).drop_last() =~= all.take(i as int));
        assert(json_tree(items@[i as int]) == json_tree(*value)->List_0[i as int]);
        if let Some(p) = read_position(&items[i]) {
            points.push(p);
        }
        i = i + 1;
    }
    assert(all.take(i as int) =~= all);
    if points.len() >= 2 {
        Some(points)
    } else {
        None
    }
}

/// Append each ring of a polygon's coordinates to `out`. Rings with fewer than
/// two points are dropped.
fn collect_polygon_rings(coords: &serde_json::Value, out: &mut Vec<Vec<Point>>)
    ensures
        point_views(final(out)@) == point_views(old(out)@) + rings_in(json_tree(*coords)),
{
    let ghost start = point_views(out@);
    let items = match json_items(coords) {
        Some(v) => v,
        None => {
            assert(start + Seq::<Seq<Point>>::empty() =~= start);
            return ;
        },
    };
    let ghost all = json_tree(*coords)->List_0.map_values(|t: JsonTree| ring_in(t));
    let mut i: usize = 0;
    assert(all.take(0) =~= Seq::<Option<Seq<Point>>>::empty());
    assert(start + present(all.take(0)) =~= start);
    while i < items.len()
        invariant
            i <= items.len(),
            items@.map_values(|item: serde_json::Value| json_tree(item)) == json_tree(
                *coords,
            )->List_0,
            all == json_tree(*coords)->List_0.map_values(|t: JsonTree| ring_in(t)),
            point_views(out@) == start + present(all.take(i as int)),
        decreases items.len() - i,
    {
        assert(all.take(i + 1).drop_last() =~= all.take(i as int));
        assert(json_tree(items@[i as int]) == json_tree(*coords)->List_0[i as int]);
        let ghost before = out@;
        if let Some(ring) = read_ring(&items[i]) {
            let ghost view = ring@;
            out.push(ring);
            assert(point_views(out@) =~= point_views(before).push(view));
        }
        assert(point_views(out@) =~= start + present(all.take(i + 1)));
        i = i + 1;
    }
    assert(all.take(i as int) =~= all);
}

fn geometry_rings(value: &serde_json::Value) -> (out: Vec<Vec<Point>>)
    ensures
        point_views(out@) == rings_of_geometry(json_tree(*value)),
{
    let mut out: Vec<Vec<Point>> = Vec::new();
    assert(point_views(out@) =~= Seq::<Seq<Point>>::empty());
    let coordinates = match find_member(value, "coordinates") {
        Some(c) => c,
        None => {
            return out;
        },
    };
    if is_type(value, "Polygon") {
        collect_polygon_rings(coordinates, &mut out);
        assert(point_views(out@) =~= rings_in(json_tree(*coordinates)));
    } else if is_type(value, "MultiPolygon") {
        if let Some(polygons) = json_items(coordinates) {
            let ghost all = json_tree(*coordinates)->List_0;
            let mut i: usize = 0;
            while i < polygons.len()
                invariant
                    i <= polygons.len(),
                    all == polygons@.map_values(|item: serde_json::Value| json_tree(item)),
                    point_views(out@) == rings_of_polygons(all, i as nat),
                decreases polygons.len() - i,
            {
                assert(all[i as int] == json_tree(polygons@[i as int]));
                collect_polygon_rings(&polygons[i], &mut out);
                i = i + 1;
            }
        }
    }
    out
}

/// Parse one GeoJSON text into a list of rings, each a list of coordinates. A
/// polygon yields its rings, a multipolygon those of all its polygons, and a
/// feature those of its geometry. Any other geometry, and a text that is not
/// JSON, yields none.
pub fn parse_geojson_rings(text: &str) -> (out: Vec<Vec<Point>>)
    ensures
        point_views(out@) == geojson_rings(text@),
{
    match parse_json(text) {
        Some(value) => rings_in_value(&value),
        None => {
            let out: Vec<Vec<Point>> = Vec::new();
            assert(point_views(out@) =~= Seq::<Seq<Point>>::empty());
            out
        },
    }
}

/// The rings of a parsed value.
pub fn rings_in_value(value: &serde_json::Value) -> (out: Vec<Vec<Point>>)
    ensures
        point_views(out@) == rings_of_value(json_tree(*value)),
{
    if is_type(value, "Feature") {
        match find_member(value, "geometry") {
            Some(g) => geometry_rings(g),
            None => {
                let out: Vec<Vec<Point>> = Vec::new();
                assert(point_views(out@) =~= Seq::<Seq<Point>>::empty());
                out
            },
        }
    } else {
        geometry_rings(value)
    }
}

/// Every ring of a polygon has at least two points.
pub proof fn a_ring_has_two_points(tree: JsonTree, i: int)
    requires
        0 <= i < rings_in(tree).len(),
    ensures
        rings_in(tree)[i].len() >= 2,
{
    if let JsonTree::List(items) = tree {
        lemma_rings_are_long(items.map_values(|t: JsonTree| ring_in(t)), i);
    }
}

proof fn lemma_rings_are_long(rings: Seq<Option<Seq<Point>>>, i: int)
    requires
        forall|k: int|
            0 <= k < rings.len() ==> match #[trigger] rings[k] {
                Some(r) => r.len() >= 2,
                None => true,
            },
        0 <= i < present(rings).len(),
    ensures
        present(rings)[i].len() >= 2,
    decreases rings.len(),
{
    if rings.len() > 0 {
        let rest = rings.drop_last();
        assert forall|k: int| 0 <= k < rest.len() implies match #[trigger] rest[k] {
            Some(r) => r.len() >= 2,
            None => true,
        } by {
            assert(rest[k] == rings[k]);
        }
        if i < present(rest).len() {
            lemma_rings_are_long(rest, i);
        } else {
            assert(rings.last() == rings[rings.len() - 1]);
        }
    }
}

} // verus!
