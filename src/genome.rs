use vstd::prelude::*;

verus! {

/// Lower bound of gene `i` of a genome.
pub open spec fn gene_min(i: int) -> int {
    if i == 8 { 3 } else { -9 }
}

/// Upper bound of gene `i` of a genome.
pub open spec fn gene_max(i: int) -> int {
    9
}

/// Every gene lies in its inclusive interval.
pub open spec fn genes_valid(g: Seq<i32>) -> bool {
    &&& g.len() == 9
    &&& forall|i: int| 0 <= i < 9 ==> gene_min(i) <= #[trigger] g[i] <= gene_max(i)
}

/// Gene `i` moved one step up or down; a step past an end of its interval
/// lands one inside that end instead.
pub open spec fn mutated_gene(g: Seq<i32>, i: int, up: bool) -> int {
    let v = g[i] + if up { 1int } else { -1int };
    if v < gene_min(i) {
        gene_min(i) + 1
    } else if v > gene_max(i) {
        gene_max(i) - 1
    } else {
        v
    }
}

/// The genome with gene `i` mutated and every other gene kept.
pub open spec fn mutation(g: Seq<i32>, i: int, up: bool) -> Seq<i32> {
    g.update(i, mutated_gene(g, i, up) as i32)
}

/// `h` is one mutation of `g`.
pub open spec fn is_mutation_of(g: Seq<i32>, h: Seq<i32>) -> bool {
    exists|i: int, up: bool| 0 <= i < 9 && h == #[trigger] mutation(g, i, up)
}

/// What a newborn genome may hold: genes 0 to 7 anywhere in their interval,
/// the order gene in the top four values of its own.
pub open spec fn newborn_valid(g: Seq<i32>) -> bool {
    &&& g.len() == 9
    &&& forall|i: int| 0 <= i < 8 ==> -9 <= #[trigger] g[i] <= 9
    &&& 6 <= g[8] <= 9
}

/// A newborn genome lies in the genome table.
pub proof fn lemma_newborn_valid(g: Seq<i32>)
    requires
        newborn_valid(g),
    ensures
        genes_valid(g),
{
}

/// A mutation keeps every gene in its interval, changes exactly one gene,
/// and moves it by exactly one: a gene at an end of its interval that would
/// step past it goes one step inside instead.
pub proof fn lemma_mutation_in_bounds(g: Seq<i32>, i: int, up: bool)
    requires
        genes_valid(g),
        0 <= i < 9,
    ensures
        genes_valid(mutation(g, i, up)),
        mutation(g, i, up).len() == 9,
        forall|j: int| 0 <= j < 9 && j != i ==> #[trigger] mutation(g, i, up)[j] == g[j],
        mutation(g, i, up)[i] == g[i] + 1 || mutation(g, i, up)[i] == g[i] - 1,
        g[i] == gene_min(i) && !up ==> mutation(g, i, up)[i] == gene_min(i) + 1,
        g[i] == gene_max(i) && up ==> mutation(g, i, up)[i] == gene_max(i) - 1,
{
    let h = mutation(g, i, up);
    assert forall|j: int| 0 <= j < 9 implies gene_min(j) <= #[trigger] h[j] <= gene_max(j) by {
        if j == i {
        }
    }
}

/// The genome table: the inclusive interval `(min, max)` of each gene.
pub fn genome() -> (r: [(i32, i32); 9])
    ensures
        forall|i: int| 0 <= i < 9 ==> r[i].0 == gene_min(i) && r[i].1 == gene_max(i),
{
    let mut table: [(i32, i32); 9] = [(-9, 9); 9];
    table[8] = (3, 9);
    table
}

/// Whether every gene lies in its interval of the genome table.
pub fn genes_in_bounds(genes: &[i32; 9]) -> (r: bool)
    ensures
        r == genes_valid(genes@),
{
    let table = genome();
    let mut i: usize = 0;
    while i < 9
        invariant
            0 <= i <= 9,
            forall|j: int| 0 <= j < 9 ==> table[j].0 == gene_min(j) && table[j].1 == gene_max(j),
            forall|j: int| 0 <= j < i ==> gene_min(j) <= #[trigger] genes@[j] <= gene_max(j),
        decreases 9 - i,
    {
        if genes[i] < table[i].0 || genes[i] > table[i].1 {
            return false;
        }
        i = i + 1;
    }
    true
}

} // verus!
