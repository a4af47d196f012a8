use vstd::prelude::*;

verus! {

/// The six element indices that draw quad `q` as two triangles from its four
/// vertices `4q .. 4q + 3`.
pub open spec fn quad_elements(q: nat) -> Seq<u16> {
    let base = (4 * q) as u16;
    seq![base, (base + 1) as u16, (base + 2) as u16, (base + 2) as u16, (base + 1) as u16, (base + 3) as u16]
}

/// The element indices of quads `0 .. n`, one quad after the other.
pub open spec fn quad_element_list(n: nat) -> Seq<u16>
    decreases n,
{
    if n == 0 {
        Seq::empty()
    } else {
        quad_element_list((n - 1) as nat) + quad_elements((n - 1) as nat)
    }
}

/// The list holds six indices per quad.
pub proof fn lemma_quad_element_list_len(n: nat)
    ensures
        quad_element_list(n).len() == 6 * n,
    decreases n,
{
    if n > 0 {
        lemma_quad_element_list_len((n - 1) as nat);
    }
}

/// The element buffer's contents for `n_quads` quads. Every index must fit in
/// a `u16`, so at most 16384 quads can be drawn from one buffer.
pub fn quad_indices(n_quads: u32) -> (indices: Vec<u16>)
    requires
        n_quads <= 16384,
    ensures
        indices@ == quad_element_list(n_quads as nat),
        indices.len() == 6 * n_quads,
{
    let mut indices: Vec<u16> = Vec::new();
    let mut quad_num: u32 = 0;
    while quad_num < n_quads
        invariant
            quad_num <= n_quads <= 16384,
            indices@ == quad_element_list(quad_num as nat),
        decreases n_quads - quad_num,
    {
        let base_index: u16 = quad_num as u16 * 4;
        let ghost before = indices@;
        indices.push(base_index + 0);
        indices.push(base_index + 1);
        indices.push(base_index + 2);
        indices.push(base_index + 2);
        indices.push(base_index + 1);
        indices.push(base_index + 3);
        assert(indices@ =~= before + quad_elements(quad_num as nat));
        quad_num = quad_num + 1;
    }
    proof {
        lemma_quad_element_list_len(n_quads as nat);
    }
    indices
}

/// The size, in quads, of a new element buffer: the current size, or one
/// quad when there is no buffer yet, doubled as few times as reaching
/// `n_quads` takes. `None` when the current buffer already holds `n_quads`.
///
/// A current size of zero would never grow, and doubling past `n_quads`
/// must fit in a `u32`: the sizes are bounded accordingly.
pub fn quads_to_allocate(current: Option<u32>, n_quads: u32) -> (r: Option<u32>)
    requires
        current matches Some(c) ==> c > 0,
        n_quads <= 0x8000_0000,
    ensures
        r is None <==> (current matches Some(c) && c >= n_quads),
        r matches Some(m) ==> {
            let start: nat = match current {
                Some(c) => c as nat,
                None => 1,
            };
            &&& m >= n_quads
            &&& exists|k: nat|
                #![trigger vstd::arithmetic::power2::pow2(k)]
                m == start * vstd::arithmetic::power2::pow2(k) && (k == 0
                    || start * vstd::arithmetic::power2::pow2((k - 1) as nat) < n_quads)
        },
{
    let mut new_n_quads: u32 = match current {
        Some(current_n_quads) => {
            if current_n_quads >= n_quads {
                return None;
            }
            current_n_quads
        },
        None => 1,
    };
    let ghost start: nat = new_n_quads as nat;
    let ghost mut k: nat = 0;
    proof {
        vstd::arithmetic::power2::lemma2_to64();
    }
    while new_n_quads < n_quads
        invariant
            n_quads <= 0x8000_0000,
            start > 0,
            new_n_quads == start * vstd::arithmetic::power2::pow2(k),
            k == 0 || start * vstd::arithmetic::power2::pow2((k - 1) as nat) < n_quads,
        decreases 0x1_0000_0000 - new_n_quads,
    {
        proof {
            vstd::arithmetic::power2::lemma_pow2_unfold(k + 1);
            let p = vstd::arithmetic::power2::pow2(k);
            assert(start * (2 * p) == 2 * (start * p)) by (nonlinear_arith);
            vstd::arithmetic::power2::lemma_pow2_pos(k);
            assert(start * p > 0) by (nonlinear_arith)
                requires
                    start > 0,
                    p > 0,
            ;
        }
        new_n_quads = new_n_quads * 2;
        proof {
            k = k + 1;
        }
    }
    Some(new_n_quads)
}

} // verus!
