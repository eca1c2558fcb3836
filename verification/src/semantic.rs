//! The semantic analyzer: a pure validation pass over the syntax tree. It
//! rejects a project whose scripts declare the same name twice, and one
//! whose statements call a name no script declares; it mutates nothing.

use vstd::prelude::*;
use crate::errors::Diagnostic;
use crate::errors::SpecDiagKind;
use crate::parser::Project;
use crate::parser::SpecProject;
use crate::parser::SpecScript;

verus! {

/// The declared script names, in declaration order.
pub open spec fn script_names(ss: Seq<SpecScript>) -> Seq<Seq<u8>> {
    ss.map_values(|s: SpecScript| s.name)
}

/// The first name from `i` on that repeats an earlier declaration.
pub open spec fn first_dup(names: Seq<Seq<u8>>, i: int) -> Option<Seq<u8>>
    decreases names.len() - i,
        when 0 <= i
{
    if i >= names.len() {
        None
    } else if names.take(i).contains(names[i]) {
        Some(names[i])
    } else {
        first_dup(names, i + 1)
    }
}

/// The first statement of `body` from `j` on calling an undeclared name.
pub open spec fn first_unresolved_in(body: Seq<Seq<u8>>, names: Seq<Seq<u8>>, j: int) -> Option<
    Seq<u8>,
>
    decreases body.len() - j,
        when 0 <= j
{
    if j >= body.len() {
        None
    } else if !names.contains(body[j]) {
        Some(body[j])
    } else {
        first_unresolved_in(body, names, j + 1)
    }
}

/// The first statement in any script from `i` on calling an undeclared
/// name, scripts and statements in declaration order.
pub open spec fn first_unresolved(ss: Seq<SpecScript>, names: Seq<Seq<u8>>, i: int) -> Option<
    Seq<u8>,
>
    decreases ss.len() - i,
        when 0 <= i
{
    if i >= ss.len() {
        None
    } else {
        match first_unresolved_in(ss[i].body, names, 0) {
            Some(w) => Some(w),
            None => first_unresolved(ss, names, i + 1),
        }
    }
}

/// The verdict of the pass: the first duplicate declaration, else the first
/// unresolved call, else acceptance.
pub open spec fn spec_analyze(p: SpecProject) -> Result<(), SpecDiagKind> {
    let names = script_names(p.scripts);
    match first_dup(names, 0) {
        Some(n) => Err(SpecDiagKind::DuplicateScript { name: n }),
        None => match first_unresolved(p.scripts, names, 0) {
            Some(w) => Err(SpecDiagKind::UnresolvedName { name: w }),
            None => Ok(()),
        },
    }
}

/// Reject the project on its first duplicate declaration or unresolved
/// call; accept it otherwise.
pub fn analyze(p: &Project) -> (r: Result<(), Diagnostic>)
    ensures
        match spec_analyze(p@) {
            Ok(u) => r is Ok,
            Err(k) => r matches Err(e) && e@.kind == k,
        },
{
    let ghost names = script_names(p@.scripts);
    let mut namevec: Vec<Vec<u8>> = Vec::new();
    let mut i: usize = 0;
    while i < p.scripts.len()
        invariant
            0 <= i <= p.scripts@.len(),
            names == script_names(p@.scripts),
            names.len() == p.scripts@.len(),
            namevec.deep_view() == names.take(i as int),
        decreases p.scripts@.len() - i,
    {
        let ghost pre = namevec.deep_view();
        namevec.push(crate::clone_bytes(&p.scripts[i].name));
        proof {
            assert(names[i as int] == p.scripts@[i as int].name@);
            assert(namevec.deep_view() =~~= pre.push(names[i as int]));
            assert(namevec.deep_view() =~~= names.take(i + 1));
        }
        i += 1;
    }
    proof {
        assert(names.take(names.len() as int) =~= names);
    }
    // first pass: duplicate declarations
    let mut i: usize = 0;
    while i < namevec.len()
        invariant
            0 <= i <= names.len(),
            names == script_names(p@.scripts),
            namevec.deep_view() == names,
            namevec@.len() == names.len(),
            first_dup(names, 0) == first_dup(names, i as int),
        decreases names.len() - i,
    {
        proof {
            assert(names[i as int] =~= namevec@[i as int]@);
        }
        let mut k: usize = 0;
        let mut dup = false;
        while k < i && !dup
            invariant
                0 <= k <= i < namevec@.len(),
                namevec@.len() == names.len(),
                namevec.deep_view() == names,
                !dup ==> forall|m: int| 0 <= m < k ==> names[m] != names[i as int],
                dup ==> names.take(i as int).contains(names[i as int]),
            decreases i - k + (if dup {
                0int
            } else {
                1int
            }),
        {
            proof {
                assert(names[k as int] =~= namevec@[k as int]@);
                assert(names[i as int] =~= namevec@[i as int]@);
            }
            if crate::bytes_eq(&namevec[k], &namevec[i]) {
                dup = true;
                proof {
                    assert(names[k as int] == names[i as int]);
                    assert(names.take(i as int)[k as int] == names[i as int]);
                }
            } else {
                proof {
                    assert(names[k as int] != names[i as int]);
                }
                k += 1;
            }
        }
        if dup {
            proof {
                assert(first_dup(names, i as int) == Some(names[i as int]));
            }
            return Err(Diagnostic::DuplicateScript { name: crate::clone_bytes(&namevec[i]) });
        }
        proof {
            assert(!names.take(i as int).contains(names[i as int])) by {
                if names.take(i as int).contains(names[i as int]) {
                    let m = choose|m: int|
                        0 <= m < names.take(i as int).len() && names.take(i as int)[m]
                            == names[i as int];
                    assert(names[m] == names[i as int]);
                }
            }
        }
        i += 1;
    }
    // second pass: unresolved calls
    let mut i: usize = 0;
    while i < p.scripts.len()
        invariant
            0 <= i <= p.scripts@.len(),
            names == script_names(p@.scripts),
            names.len() == p.scripts@.len(),
            namevec.deep_view() == names,
            first_dup(names, 0) is None,
            first_unresolved(p@.scripts, names, 0) == first_unresolved(p@.scripts, names, i as int),
        decreases p.scripts@.len() - i,
    {
        let body = &p.scripts[i].body;
        let ghost sbody = p@.scripts[i as int].body;
        proof {
            assert(sbody == body.deep_view());
        }
        let mut j: usize = 0;
        while j < body.len()
            invariant
                0 <= j <= sbody.len(),
                0 <= i < p.scripts@.len(),
                names == script_names(p@.scripts),
                sbody == p@.scripts[i as int].body,
                sbody == body.deep_view(),
                sbody.len() == body@.len(),
                namevec.deep_view() == names,
                first_dup(names, 0) is None,
                first_unresolved(p@.scripts, names, 0) == first_unresolved(
                    p@.scripts,
                    names,
                    i as int,
                ),
                first_unresolved_in(sbody, names, 0) == first_unresolved_in(sbody, names, j as int),
            decreases sbody.len() - j,
        {
            proof {
                assert(sbody[j as int] =~= body@[j as int]@);
            }
            if !crate::contains_bytes(&namevec, &body[j]) {
                proof {
                    assert(!names.contains(sbody[j as int]));
                    assert(first_unresolved_in(sbody, names, j as int) == Some(sbody[j as int]));
                    assert(first_unresolved(p@.scripts, names, i as int) == Some(sbody[j as int]));
                }
                return Err(Diagnostic::UnresolvedName { name: crate::clone_bytes(&body[j]) });
            }
            proof {
                assert(names.contains(sbody[j as int]));
            }
            j += 1;
        }
        proof {
            assert(first_unresolved_in(sbody, names, j as int) is None);
            assert(first_unresolved_in(sbody, names, 0) is None);
        }
        i += 1;
    }
    Ok(())
}

} // verus!
