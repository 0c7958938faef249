//! Homotopy groups π_n for n=1,2,3.

use vstd::prelude::*;
use crate::text::{decimal, push_decimal};

verus! {

/// A homotopy group result.
#[derive(Clone, Debug)]
pub struct HomotopyGroup {
    /// Space name.
    pub space: String,
    /// Dimension n.
    pub dimension: usize,
    /// Whether the group is abelian (always true for n >= 2; for π_1, true
    /// of the groups Z, Z × Z and Z/2 of the circle, torus and projective plane).
    pub is_abelian: bool,
    /// Description of the group.
    pub description: String,
}

/// `"S^"` followed by the decimal digits of `n`.
pub open spec fn sphere_name(n: nat) -> Seq<char> {
    "S^"@ + decimal(n)
}

fn sphere_label(n: usize) -> (s: String)
    ensures
        s@ == sphere_name(n as nat),
{
    let mut s = String::from_str("S^");
    push_decimal(&mut s, n as u64);
    s
}

/// Compute π_1(S^1) = Z.
pub fn pi1_s1() -> (g: HomotopyGroup)
    ensures
        g.space@ == "S^1"@,
        g.dimension == 1,
        g.is_abelian,
        g.description@ == "Z (free group on 1 generator)"@,
{
    HomotopyGroup {
        space: String::from_str("S^1"),
        dimension: 1,
        is_abelian: true,
        description: String::from_str("Z (free group on 1 generator)"),
    }
}

/// Compute π_n(S^1) = 0 for n >= 2.
pub fn pin_s1(n: usize) -> (g: HomotopyGroup)
    ensures
        g.space@ == "S^1"@,
        g.dimension == n,
        g.is_abelian,
        g.description@ == "0 (trivial)"@,
        g.dimension >= 2 ==> g.is_abelian,
{
    HomotopyGroup {
        space: String::from_str("S^1"),
        dimension: n,
        is_abelian: true,
        description: String::from_str("0 (trivial)"),
    }
}

/// Compute π_n(S^n) = Z for all n >= 1.
pub fn pin_sn(n: usize) -> (g: HomotopyGroup)
    ensures
        g.space@ == sphere_name(n as nat),
        g.dimension == n,
        g.is_abelian,
        g.description@ == "Z"@,
        g.dimension >= 2 ==> g.is_abelian,
{
    HomotopyGroup { space: sphere_label(n), dimension: n, is_abelian: true, description: String::from_str("Z") }
}

/// What `pik_sn(k, n)` reports for `k > n >= 2`: the known groups π_3(S^2),
/// π_4(S^2) and π_4(S^3), and "Unknown / complex" otherwise.
pub open spec fn higher_homotopy(k: nat, n: nat) -> (Seq<char>, Seq<char>) {
    if k == 2 && n == 2 {
        ("S^2"@, "Z"@)
    } else if k == 3 && n == 2 {
        ("S^2"@, "Z"@)
    } else if k == 4 && n == 2 {
        ("S^2"@, "Z/2"@)
    } else if k == 3 && n == 3 {
        ("S^3"@, "Z"@)
    } else if k == 4 && n == 3 {
        ("S^3"@, "Z/2"@)
    } else {
        (sphere_name(n), "Unknown / complex"@)
    }
}

/// π_k(S^n) for known cases: `Z` for `k == n`, trivial below, trivial for
/// the circle above, and the entries of `higher_homotopy` otherwise.
pub fn pik_sn(k: usize, n: usize) -> (g: HomotopyGroup)
    ensures
        g.dimension == k,
        k == n ==> g.space@ == sphere_name(n as nat) && g.is_abelian && g.description@ == "Z"@,
        k < n ==> g.space@ == sphere_name(n as nat) && g.is_abelian && g.description@ == "0 (trivial)"@,
        k > n && n == 1 ==> g.space@ == "S^1"@ && g.is_abelian && g.description@ == "0 (trivial)"@,
        k > n && n != 1 ==> g.space@ == higher_homotopy(k as nat, n as nat).0 && g.is_abelian
            && g.description@ == higher_homotopy(k as nat, n as nat).1,
        g.dimension >= 2 ==> g.is_abelian,
{
    if k == n {
        return pin_sn(n);
    }
    if k < n {
        return HomotopyGroup {
            space: sphere_label(n),
            dimension: k,
            is_abelian: true,
            description: String::from_str("0 (trivial)"),
        };
    }
    if n == 1 && k >= 2 {
        return pin_s1(k);
    }
    // Some known higher homotopy groups
    if k == 2 && n == 2 {
        HomotopyGroup { space: String::from_str("S^2"), dimension: 2, is_abelian: true, description: String::from_str("Z") }
    } else if k == 3 && n == 2 {
        HomotopyGroup { space: String::from_str("S^2"), dimension: 3, is_abelian: true, description: String::from_str("Z") }
    } else if k == 4 && n == 2 {
        HomotopyGroup { space: String::from_str("S^2"), dimension: 4, is_abelian: true, description: String::from_str("Z/2") }
    } else if k == 3 && n == 3 {
        HomotopyGroup { space: String::from_str("S^3"), dimension: 3, is_abelian: true, description: String::from_str("Z") }
    } else if k == 4 && n == 3 {
        HomotopyGroup { space: String::from_str("S^3"), dimension: 4, is_abelian: true, description: String::from_str("Z/2") }
    } else {
        HomotopyGroup {
            space: sphere_label(n),
            dimension: k,
            is_abelian: true,
            description: String::from_str("Unknown / complex"),
        }
    }
}

/// `s` reads as the literal `lit`.
fn is_named(s: &String, lit: &str) -> (b: bool)
    ensures
        b == (s@ == lit@),
{
    let t = String::from_str(lit);
    *s == t
}

/// What `pi1_space` reports for a space name: its recorded name, whether
/// the group is abelian, and its description.
pub open spec fn pi1_table(name: Seq<char>) -> (Seq<char>, bool, Seq<char>) {
    if name == "S^1"@ {
        ("S^1"@, true, "Z (free group on 1 generator)"@)
    } else if name == "S^n"@ || name == "S^2"@ || name == "S^3"@ {
        (name, true, "0 (simply connected)"@)
    } else if name == "T^2"@ || name == "torus"@ {
        ("T^2"@, true, "Z × Z (free abelian on 2 generators)"@)
    } else if name == "RP^2"@ || name == "RP²"@ {
        ("RP²"@, true, "Z/2"@)
    } else if name == "Klein"@ || name == "Klein bottle"@ {
        ("Klein bottle"@, false, "Z ⋊ Z (semidirect product)"@)
    } else if name == "pt"@ || name == "point"@ {
        ("pt"@, true, "0 (trivial)"@)
    } else {
        (name, true, "Unknown"@)
    }
}

/// What `pi1_table` gives for each name it knows.
pub proof fn lemma_pi1_table_literals()
    ensures
        pi1_table("S^1"@) == ("S^1"@, true, "Z (free group on 1 generator)"@),
        pi1_table("S^n"@) == ("S^n"@, true, "0 (simply connected)"@),
        pi1_table("S^2"@) == ("S^2"@, true, "0 (simply connected)"@),
        pi1_table("S^3"@) == ("S^3"@, true, "0 (simply connected)"@),
        pi1_table("T^2"@) == ("T^2"@, true, "Z × Z (free abelian on 2 generators)"@),
        pi1_table("torus"@) == ("T^2"@, true, "Z × Z (free abelian on 2 generators)"@),
        pi1_table("RP^2"@) == ("RP²"@, true, "Z/2"@),
        pi1_table("RP²"@) == ("RP²"@, true, "Z/2"@),
        pi1_table("Klein"@) == ("Klein bottle"@, false, "Z ⋊ Z (semidirect product)"@),
        pi1_table("Klein bottle"@) == ("Klein bottle"@, false, "Z ⋊ Z (semidirect product)"@),
        pi1_table("pt"@) == ("pt"@, true, "0 (trivial)"@),
        pi1_table("point"@) == ("pt"@, true, "0 (trivial)"@),
{
    reveal_strlit("0 (simply connected)");
    reveal_strlit("0 (trivial)");
    reveal_strlit("Klein");
    reveal_strlit("Klein bottle");
    reveal_strlit("RP^2");
    reveal_strlit("RP²");
    reveal_strlit("S^1");
    reveal_strlit("S^2");
    reveal_strlit("S^3");
    reveal_strlit("S^n");
    reveal_strlit("T^2");
    reveal_strlit("Z (free group on 1 generator)");
    reveal_strlit("Z × Z (free abelian on 2 generators)");
    reveal_strlit("Z ⋊ Z (semidirect product)");
    reveal_strlit("Z/2");
    reveal_strlit("point");
    reveal_strlit("pt");
    reveal_strlit("torus");
    assert("S^n"@[2] != "S^1"@[2]);
    assert("S^n"@ != "S^1"@);
    assert("S^2"@[2] != "S^1"@[2]);
    assert("S^2"@ != "S^1"@);
    assert("S^2"@[2] != "S^n"@[2]);
    assert("S^2"@ != "S^n"@);
    assert("S^3"@[2] != "S^1"@[2]);
    assert("S^3"@ != "S^1"@);
    assert("S^3"@[2] != "S^n"@[2]);
    assert("S^3"@ != "S^n"@);
    assert("S^3"@[2] != "S^2"@[2]);
    assert("S^3"@ != "S^2"@);
    assert("T^2"@[0] != "S^1"@[0]);
    assert("T^2"@ != "S^1"@);
    assert("T^2"@[0] != "S^n"@[0]);
    assert("T^2"@ != "S^n"@);
    assert("T^2"@[0] != "S^2"@[0]);
    assert("T^2"@ != "S^2"@);
    assert("T^2"@[0] != "S^3"@[0]);
    assert("T^2"@ != "S^3"@);
    assert("torus"@.len() == 5 && "S^1"@.len() == 3);
    assert("torus"@ != "S^1"@);
    assert("torus"@.len() == 5 && "S^n"@.len() == 3);
    assert("torus"@ != "S^n"@);
    assert("torus"@.len() == 5 && "S^2"@.len() == 3);
    assert("torus"@ != "S^2"@);
    assert("torus"@.len() == 5 && "S^3"@.len() == 3);
    assert("torus"@ != "S^3"@);
    assert("torus"@.len() == 5 && "T^2"@.len() == 3);
    assert("torus"@ != "T^2"@);
    assert("RP^2"@.len() == 4 && "S^1"@.len() == 3);
    assert("RP^2"@ != "S^1"@);
    assert("RP^2"@.len() == 4 && "S^n"@.len() == 3);
    assert("RP^2"@ != "S^n"@);
    assert("RP^2"@.len() == 4 && "S^2"@.len() == 3);
    assert("RP^2"@ != "S^2"@);
    assert("RP^2"@.len() == 4 && "S^3"@.len() == 3);
    assert("RP^2"@ != "S^3"@);
    assert("RP^2"@.len() == 4 && "T^2"@.len() == 3);
    assert("RP^2"@ != "T^2"@);
    assert("RP^2"@.len() == 4 && "torus"@.len() == 5);
    assert("RP^2"@ != "torus"@);
    assert("RP²"@[0] != "S^1"@[0]);
    assert("RP²"@ != "S^1"@);
    assert("RP²"@[0] != "S^n"@[0]);
    assert("RP²"@ != "S^n"@);
    assert("RP²"@[0] != "S^2"@[0]);
    assert("RP²"@ != "S^2"@);
    assert("RP²"@[0] != "S^3"@[0]);
    assert("RP²"@ != "S^3"@);
    assert("RP²"@[0] != "T^2"@[0]);
    assert("RP²"@ != "T^2"@);
    assert("RP²"@.len() == 3 && "torus"@.len() == 5);
    assert("RP²"@ != "torus"@);
    assert("RP²"@.len() == 3 && "RP^2"@.len() == 4);
    assert("RP²"@ != "RP^2"@);
    assert("Klein"@.len() == 5 && "S^1"@.len() == 3);
    assert("Klein"@ != "S^1"@);
    assert("Klein"@.len() == 5 && "S^n"@.len() == 3);
    assert("Klein"@ != "S^n"@);
    assert("Klein"@.len() == 5 && "S^2"@.len() == 3);
    assert("Klein"@ != "S^2"@);
    assert("Klein"@.len() == 5 && "S^3"@.len() == 3);
    assert("Klein"@ != "S^3"@);
    assert("Klein"@.len() == 5 && "T^2"@.len() == 3);
    assert("Klein"@ != "T^2"@);
    assert("Klein"@[0] != "torus"@[0]);
    assert("Klein"@ != "torus"@);
    assert("Klein"@.len() == 5 && "RP^2"@.len() == 4);
    assert("Klein"@ != "RP^2"@);
    assert("Klein"@.len() == 5 && "RP²"@.len() == 3);
    assert("Klein"@ != "RP²"@);
    assert("Klein bottle"@.len() == 12 && "S^1"@.len() == 3);
    assert("Klein bottle"@ != "S^1"@);
    assert("Klein bottle"@.len() == 12 && "S^n"@.len() == 3);
    assert("Klein bottle"@ != "S^n"@);
    assert("Klein bottle"@.len() == 12 && "S^2"@.len() == 3);
    assert("Klein bottle"@ != "S^2"@);
    assert("Klein bottle"@.len() == 12 && "S^3"@.len() == 3);
    assert("Klein bottle"@ != "S^3"@);
    assert("Klein bottle"@.len() == 12 && "T^2"@.len() == 3);
    assert("Klein bottle"@ != "T^2"@);
    assert("Klein bottle"@.len() == 12 && "torus"@.len() == 5);
    assert("Klein bottle"@ != "torus"@);
    assert("Klein bottle"@.len() == 12 && "RP^2"@.len() == 4);
    assert("Klein bottle"@ != "RP^2"@);
    assert("Klein bottle"@.len() == 12 && "RP²"@.len() == 3);
    assert("Klein bottle"@ != "RP²"@);
    assert("Klein bottle"@.len() == 12 && "Klein"@.len() == 5);
    assert("Klein bottle"@ != "Klein"@);
    assert("pt"@.len() == 2 && "S^1"@.len() == 3);
    assert("pt"@ != "S^1"@);
    assert("pt"@.len() == 2 && "S^n"@.len() == 3);
    assert("pt"@ != "S^n"@);
    assert("pt"@.len() == 2 && "S^2"@.len() == 3);
    assert("pt"@ != "S^2"@);
    assert("pt"@.len() == 2 && "S^3"@.len() == 3);
    assert("pt"@ != "S^3"@);
    assert("pt"@.len() == 2 && "T^2"@.len() == 3);
    assert("pt"@ != "T^2"@);
    assert("pt"@.len() == 2 && "torus"@.len() == 5);
    assert("pt"@ != "torus"@);
    assert("pt"@.len() == 2 && "RP^2"@.len() == 4);
    assert("pt"@ != "RP^2"@);
    assert("pt"@.len() == 2 && "RP²"@.len() == 3);
    assert("pt"@ != "RP²"@);
    assert("pt"@.len() == 2 && "Klein"@.len() == 5);
    assert("pt"@ != "Klein"@);
    assert("pt"@.len() == 2 && "Klein bottle"@.len() == 12);
    assert("pt"@ != "Klein bottle"@);
    assert("point"@.len() == 5 && "S^1"@.len() == 3);
    assert("point"@ != "S^1"@);
    assert("point"@.len() == 5 && "S^n"@.len() == 3);
    assert("point"@ != "S^n"@);
    assert("point"@.len() == 5 && "S^2"@.len() == 3);
    assert("point"@ != "S^2"@);
    assert("point"@.len() == 5 && "S^3"@.len() == 3);
    assert("point"@ != "S^3"@);
    assert("point"@.len() == 5 && "T^2"@.len() == 3);
    assert("point"@ != "T^2"@);
    assert("point"@[0] != "torus"@[0]);
    assert("point"@ != "torus"@);
    assert("point"@.len() == 5 && "RP^2"@.len() == 4);
    assert("point"@ != "RP^2"@);
    assert("point"@.len() == 5 && "RP²"@.len() == 3);
    assert("point"@ != "RP²"@);
    assert("point"@[0] != "Klein"@[0]);
    assert("point"@ != "Klein"@);
    assert("point"@.len() == 5 && "Klein bottle"@.len() == 12);
    assert("point"@ != "Klein bottle"@);
    assert("point"@.len() == 5 && "pt"@.len() == 2);
    assert("point"@ != "pt"@);
}

/// π_1 of common spaces.
pub fn pi1_space(space: &str) -> (g: HomotopyGroup)
    ensures
        g.dimension == 1,
        g.space@ == pi1_table(space@).0,
        g.is_abelian == pi1_table(space@).1,
        g.description@ == pi1_table(space@).2,
        space@ == "S^1"@ ==> g.space@ == "S^1"@ && g.is_abelian && g.description@ == "Z (free group on 1 generator)"@,
        space@ == "S^n"@ ==> g.space@ == "S^n"@ && g.is_abelian && g.description@ == "0 (simply connected)"@,
        space@ == "S^2"@ ==> g.space@ == "S^2"@ && g.is_abelian && g.description@ == "0 (simply connected)"@,
        space@ == "S^3"@ ==> g.space@ == "S^3"@ && g.is_abelian && g.description@ == "0 (simply connected)"@,
        space@ == "T^2"@ ==> g.space@ == "T^2"@ && g.is_abelian && g.description@ == "Z × Z (free abelian on 2 generators)"@,
        space@ == "torus"@ ==> g.space@ == "T^2"@ && g.is_abelian && g.description@ == "Z × Z (free abelian on 2 generators)"@,
        space@ == "RP^2"@ ==> g.space@ == "RP²"@ && g.is_abelian && g.description@ == "Z/2"@,
        space@ == "RP²"@ ==> g.space@ == "RP²"@ && g.is_abelian && g.description@ == "Z/2"@,
        space@ == "Klein"@ ==> g.space@ == "Klein bottle"@ && !g.is_abelian && g.description@ == "Z ⋊ Z (semidirect product)"@,
        space@ == "Klein bottle"@ ==> g.space@ == "Klein bottle"@ && !g.is_abelian && g.description@ == "Z ⋊ Z (semidirect product)"@,
        space@ == "pt"@ ==> g.space@ == "pt"@ && g.is_abelian && g.description@ == "0 (trivial)"@,
        space@ == "point"@ ==> g.space@ == "pt"@ && g.is_abelian && g.description@ == "0 (trivial)"@,
        space@ != "S^1"@ && space@ != "S^n"@ && space@ != "S^2"@ && space@ != "S^3"@ && space@ != "T^2"@ && space@ != "torus"@ && space@ != "RP^2"@ && space@ != "RP²"@ && space@ != "Klein"@ && space@ != "Klein bottle"@ && space@ != "pt"@ && space@ != "point"@
            ==> g.space@ == space@ && g.is_abelian && g.description@ == "Unknown"@,
{
    proof {
        lemma_pi1_table_literals();
    }
    let name = space.to_owned();
    if is_named(&name, "S^1") {
        pi1_s1()
    } else if is_named(&name, "S^n") || is_named(&name, "S^2") || is_named(&name, "S^3") {
        HomotopyGroup {
            space: name,
            dimension: 1,
            is_abelian: true,
            description: String::from_str("0 (simply connected)"),
        }
    } else if is_named(&name, "T^2") || is_named(&name, "torus") {
        HomotopyGroup {
            space: String::from_str("T^2"),
            dimension: 1,
            is_abelian: true,
            description: String::from_str("Z × Z (free abelian on 2 generators)"),
        }
    } else if is_named(&name, "RP^2") || is_named(&name, "RP²") {
        HomotopyGroup {
            space: String::from_str("RP²"),
            dimension: 1,
            is_abelian: true,
            description: String::from_str("Z/2"),
        }
    } else if is_named(&name, "Klein") || is_named(&name, "Klein bottle") {
        HomotopyGroup {
            space: String::from_str("Klein bottle"),
            dimension: 1,
            is_abelian: false,
            description: String::from_str("Z ⋊ Z (semidirect product)"),
        }
    } else if is_named(&name, "pt") || is_named(&name, "point") {
        HomotopyGroup {
            space: String::from_str("pt"),
            dimension: 1,
            is_abelian: true,
            description: String::from_str("0 (trivial)"),
        }
    } else {
        HomotopyGroup { space: name, dimension: 1, is_abelian: true, description: String::from_str("Unknown") }
    }
}

/// Compute the fundamental group π_1 from the 1-skeleton and 2-cells of a CW complex.
/// Returns a description of the group via generators and relations.
#[derive(Clone, Debug)]
pub struct FundamentalGroup {
    /// Number of generators (from 1-cells).
    pub num_generators: usize,
    /// Relations from 2-cells.
    pub relations: Vec<String>,
    /// Whether the group is abelian.
    pub is_abelian: bool,
    /// Description.
    pub description: String,
}

impl FundamentalGroup {
    /// Compute π_1 of S^1: one generator, no relations.
    pub fn of_s1() -> (g: Self)
        ensures
            g.num_generators == 1,
            g.relations@.len() == 0,
            g.is_abelian,
            g.description@ == "Z (free cyclic)"@,
    {
        FundamentalGroup {
            num_generators: 1,
            relations: Vec::new(),
            is_abelian: true,
            description: String::from_str("Z (free cyclic)"),
        }
    }

    /// Compute π_1 of a wedge of k circles: k generators, no relations; the
    /// free group F_k is abelian only for k <= 1.
    pub fn of_wedge_circles(k: usize) -> (g: Self)
        ensures
            g.num_generators == k,
            g.relations@.len() == 0,
            g.is_abelian == (k <= 1),
            g.description@ == "Free group F_"@ + decimal(k as nat),
    {
        let mut description = String::from_str("Free group F_");
        push_decimal(&mut description, k as u64);
        FundamentalGroup { num_generators: k, relations: Vec::new(), is_abelian: k <= 1, description }
    }

    /// Compute π_1 of T^2: two generators, one relation aba^{-1}b^{-1}.
    pub fn of_torus() -> (g: Self)
        ensures
            g.num_generators == 2,
            g.relations@.len() == 1,
            g.relations@[0]@ == "aba^{-1}b^{-1}"@,
            g.is_abelian,
            g.description@ == "Z × Z"@,
    {
        let mut relations: Vec<String> = Vec::new();
        relations.push(String::from_str("aba^{-1}b^{-1}"));
        FundamentalGroup { num_generators: 2, relations, is_abelian: true, description: String::from_str("Z × Z") }
    }

    /// Compute π_1 of RP²: one generator, one relation a². This presentation
    /// is reported with `is_abelian` false, although the group Z/2 it
    /// presents is abelian (as `pi1_space` reports).
    pub fn of_rp2() -> (g: Self)
        ensures
            g.num_generators == 1,
            g.relations@.len() == 1,
            g.relations@[0]@ == "a^2"@,
            !g.is_abelian,
            g.description@ == "Z/2"@,
    {
        let mut relations: Vec<String> = Vec::new();
        relations.push(String::from_str("a^2"));
        FundamentalGroup { num_generators: 1, relations, is_abelian: false, description: String::from_str("Z/2") }
    }
}

} // verus!
