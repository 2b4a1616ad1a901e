//! Small named graphs: Petersen, Wagner, cube, octahedron and the usual
//! five-vertex toys.

use vstd::prelude::*;

use crate::generator::named::{
    build_with_n_vertices, built, concat_rows, cube_row, cube_size, hypercube, mobius_edges, mobius_ladder,
};
use crate::graph::Graph;

verus! {

pub open spec fn petersen_edges() -> Seq<(usize, usize)> {
    seq![
        (0usize, 1usize), (1, 2), (2, 3), (3, 4), (4, 0),
        (5, 7), (7, 9), (9, 6), (6, 8), (8, 5),
        (0, 5), (1, 6), (2, 7), (3, 8), (4, 9),
    ]
}

/// The Petersen graph: outer 5-cycle `0..5`, inner pentagram `5..10`,
/// spokes `(i, 5 + i)`.
pub fn petersen() -> (g: Graph)
    ensures
        g.wf(),
        built(g@, 10, petersen_edges()),
{
    let es: Vec<(usize, usize)> = vec![
        (0, 1), (1, 2), (2, 3), (3, 4), (4, 0),
        (5, 7), (7, 9), (9, 6), (6, 8), (8, 5),
        (0, 5), (1, 6), (2, 7), (3, 8), (4, 9),
    ];
    assert(es@ =~= petersen_edges());
    build_with_n_vertices(10, es)
}

/// The Wagner graph: the Möbius ladder on 8 vertices.
pub fn wagner() -> (g: Graph)
    ensures
        g.wf(),
        built(g@, 8, mobius_edges(4)),
{
    mobius_ladder(4)
}

/// The cube graph: the 3-dimensional hypercube.
pub fn cubical() -> (g: Graph)
    ensures
        g.wf(),
        built(g@, cube_size(3), concat_rows(cube_row(cube_size(3)), cube_size(3) as int)),
{
    hypercube(3)
}

pub open spec fn octahedron_edges() -> Seq<(usize, usize)> {
    seq![
        (0usize, 2usize), (0, 3), (0, 4), (0, 5),
        (1, 2), (1, 3), (1, 4), (1, 5),
        (2, 4), (2, 5),
        (3, 4), (3, 5),
    ]
}

/// The octahedron: `K6` minus the perfect matching `{0,1}, {2,3}, {4,5}`.
pub fn octahedron() -> (g: Graph)
    ensures
        g.wf(),
        built(g@, 6, octahedron_edges()),
{
    let es: Vec<(usize, usize)> = vec![
        (0, 2), (0, 3), (0, 4), (0, 5),
        (1, 2), (1, 3), (1, 4), (1, 5),
        (2, 4), (2, 5),
        (3, 4), (3, 5),
    ];
    assert(es@ =~= octahedron_edges());
    build_with_n_vertices(6, es)
}

/// The bull: a triangle with two pendant horns.
pub fn bull() -> (g: Graph)
    ensures
        g.wf(),
        built(g@, 5, seq![(0usize, 1usize), (1, 2), (0, 2), (1, 3), (2, 4)]),
{
    let es: Vec<(usize, usize)> = vec![(0, 1), (1, 2), (0, 2), (1, 3), (2, 4)];
    assert(es@ =~= seq![(0usize, 1usize), (1, 2), (0, 2), (1, 3), (2, 4)]);
    build_with_n_vertices(5, es)
}

/// The house: a square with a roof.
pub fn house() -> (g: Graph)
    ensures
        g.wf(),
        built(g@, 5, seq![(0usize, 1usize), (1, 2), (2, 3), (3, 0), (1, 4), (2, 4)]),
{
    let es: Vec<(usize, usize)> = vec![(0, 1), (1, 2), (2, 3), (3, 0), (1, 4), (2, 4)];
    assert(es@ =~= seq![(0usize, 1usize), (1, 2), (2, 3), (3, 0), (1, 4), (2, 4)]);
    build_with_n_vertices(5, es)
}

/// The diamond: `K4` minus an edge.
pub fn diamond() -> (g: Graph)
    ensures
        g.wf(),
        built(g@, 4, seq![(0usize, 1usize), (0, 2), (0, 3), (1, 2), (1, 3)]),
{
    let es: Vec<(usize, usize)> = vec![(0, 1), (0, 2), (0, 3), (1, 2), (1, 3)];
    assert(es@ =~= seq![(0usize, 1usize), (0, 2), (0, 3), (1, 2), (1, 3)]);
    build_with_n_vertices(4, es)
}

/// The paw: a triangle with one pendant vertex.
pub fn paw() -> (g: Graph)
    ensures
        g.wf(),
        built(g@, 4, seq![(0usize, 1usize), (1, 2), (0, 2), (2, 3)]),
{
    let es: Vec<(usize, usize)> = vec![(0, 1), (1, 2), (0, 2), (2, 3)];
    assert(es@ =~= seq![(0usize, 1usize), (1, 2), (0, 2), (2, 3)]);
    build_with_n_vertices(4, es)
}

/// The bowtie: two triangles sharing vertex `0`.
pub fn bowtie() -> (g: Graph)
    ensures
        g.wf(),
        built(g@, 5, seq![(0usize, 1usize), (1, 2), (0, 2), (0, 3), (3, 4), (0, 4)]),
{
    let es: Vec<(usize, usize)> = vec![(0, 1), (1, 2), (0, 2), (0, 3), (3, 4), (0, 4)];
    assert(es@ =~= seq![(0usize, 1usize), (1, 2), (0, 2), (0, 3), (3, 4), (0, 4)]);
    build_with_n_vertices(5, es)
}

/// The gem: `K4` on `0..4` plus the edge `(0, 4)`.
pub fn gem() -> (g: Graph)
    ensures
        g.wf(),
        built(g@, 5, seq![(0usize, 1usize), (0, 2), (0, 3), (1, 2), (1, 3), (2, 3), (0, 4)]),
{
    let es: Vec<(usize, usize)> = vec![(0, 1), (0, 2), (0, 3), (1, 2), (1, 3), (2, 3), (0, 4)];
    assert(es@ =~= seq![(0usize, 1usize), (0, 2), (0, 3), (1, 2), (1, 3), (2, 3), (0, 4)]);
    build_with_n_vertices(5, es)
}

} // verus!
