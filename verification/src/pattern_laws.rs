//! Laws of patterns: which values fit them, and which variables are found.
use crate::meaning::found_by;
use crate::names::NameMap;
use crate::semantics::{fit, fit_fields, select, Choice, Fault, Fit, Scope};
use crate::syntax::{binds, Case, Identifier, Offsetted, Pattern};
use crate::value::Val;
use vstd::prelude::*;

verus! {

/// The value fits the pattern.
pub open spec fn fits<'a>(pat: Pattern, v: Val<'a>) -> bool {
    fit(pat, v, Map::empty()) is Fits
}

/// The unit pattern met something else, where the value was held against the pattern.
pub open spec fn faulty<'a>(pat: Pattern, v: Val<'a>) -> bool {
    fit(pat, v, Map::empty()) is Faulty
}

/// The variables of the pattern, with the parts of the value that fit them.
pub open spec fn variables<'a>(pat: Pattern, v: Val<'a>) -> Scope<'a> {
    found_by(fit(pat, v, Map::empty()))
}

/// What was found before stays below.
proof fn lemma_fit_over<'a>(pat: Pattern, v: Val<'a>, below: Scope<'a>, found: Scope<'a>)
    ensures
        found_by(fit(pat, v, below.union_prefer_right(found))) == below.union_prefer_right(
            found_by(fit(pat, v, found)),
        ),
        fit(pat, v, below.union_prefer_right(found)) is Fits == fit(pat, v, found) is Fits,
        fit(pat, v, below.union_prefer_right(found)) is Faulty == fit(pat, v, found) is Faulty,
    decreases pat, 0nat,
{
    match pat {
        Pattern::Identifier(id) => {
            assert(below.union_prefer_right(found).insert(id.inner@, v) =~= below.union_prefer_right(
                found.insert(id.inner@, v),
            ));
        },
        Pattern::Tagged { key, value } => {
            match v {
                Val::Tagged(_, inner) => {
                    lemma_fit_over(*value, *inner, below, found);
                },
                _ => {},
            }
        },
        Pattern::Record(rec) => {
            match v {
                Val::Record(m) => {
                    lemma_fit_fields_over(rec.inner, 0, m, below, found);
                },
                _ => {},
            }
        },
        Pattern::Unit => {},
    }
}

proof fn lemma_fit_fields_over<'a>(
    pats: NameMap<String, Pattern>,
    i: int,
    m: Map<Seq<char>, Val<'a>>,
    below: Scope<'a>,
    found: Scope<'a>,
)
    requires
        0 <= i <= pats.spine().len(),
    ensures
        found_by(fit_fields(pats, i, m, below.union_prefer_right(found))) == below.union_prefer_right(
            found_by(fit_fields(pats, i, m, found)),
        ),
        fit_fields(pats, i, m, below.union_prefer_right(found)) is Fits == fit_fields(pats, i, m, found) is Fits,
        fit_fields(pats, i, m, below.union_prefer_right(found)) is Faulty == fit_fields(pats, i, m, found) is Faulty,
    decreases pats, (pats.spine().len() - i) as nat,
{
    if i < pats.spine().len() {
        pats.lemma_values_smaller();
        let key = pats.spine()[i].0@;
        let pat = pats.spine()[i].1;
        if m.contains_key(key) {
            lemma_fit_over(pat, m[key], below, found);
            match fit(pat, m[key], found) {
                Fit::Fits(more) => {
                    assert(fit(pat, m[key], below.union_prefer_right(found)) == Fit::Fits(
                        below.union_prefer_right(more),
                    ));
                    lemma_fit_fields_over(pats, i + 1, m, below, more);
                },
                _ => {},
            }
        }
    }
}

/// Whether a value fits a pattern rests on the two alone, and the variables that are found lie over
/// those found before.
pub proof fn law_fitting_does_not_rest_on_what_was_found<'a>(pat: Pattern, v: Val<'a>, found: Scope<'a>)
    ensures
        fit(pat, v, found) is Fits <==> fits(pat, v),
        fit(pat, v, found) is Faulty <==> faulty(pat, v),
        found_by(fit(pat, v, found)) == found.union_prefer_right(variables(pat, v)),
{
    let none = Map::<Seq<char>, Val<'a>>::empty();
    assert(found.union_prefer_right(none) =~= found);
    lemma_fit_over(pat, v, found, none);
}

/// A variable fits every value, and stands for the whole of it; unit fits unit, and something else is a
/// fault.
pub proof fn law_variables_fit_everything<'a>(id: Identifier, v: Val<'a>)
    ensures
        fits(Pattern::Identifier(id), v),
        variables(Pattern::Identifier(id), v) == Map::<Seq<char>, Val<'a>>::empty().insert(id.inner@, v),
        v is Unit ==> fits(Pattern::Unit, v),
        !(v is Unit) ==> faulty(Pattern::Unit, v),
        variables(Pattern::Unit, v) == Map::<Seq<char>, Val<'a>>::empty(),
{
}

/// A tagged pattern fits exactly the values with the same tag that hold what fits the pattern inside,
/// and its variables are those of the pattern inside.
pub proof fn law_tagged_patterns_fit_tagged_values<'a>(key: Identifier, inside: Pattern, v: Val<'a>)
    ensures
        fits(Pattern::Tagged { key, value: Box::new(inside) }, v) <==> (v matches Val::Tagged(k, x) && k == key.inner@
            && fits(inside, *x)),
        faulty(Pattern::Tagged { key, value: Box::new(inside) }, v) <==> (v matches Val::Tagged(k, x) && k
            == key.inner@ && faulty(inside, *x)),
        v matches Val::Tagged(k, x) ==> k == key.inner@ ==> variables(
            Pattern::Tagged { key, value: Box::new(inside) },
            v,
        ) == variables(inside, *x),
{
}

/// The fields up to the `i`-th have what the pattern asks for.
spec fn fields_fit<'a>(pats: NameMap<String, Pattern>, from: int, to: int, m: Map<Seq<char>, Val<'a>>) -> bool {
    forall|j: int|
        from <= j < to ==> m.contains_key((#[trigger] pats.spine()[j]).0@) && fits(
            pats.spine()[j].1,
            m[pats.spine()[j].0@],
        )
}

proof fn lemma_fields_fit<'a>(pats: NameMap<String, Pattern>, i: int, m: Map<Seq<char>, Val<'a>>, found: Scope<'a>)
    requires
        0 <= i <= pats.spine().len(),
    ensures
        fit_fields(pats, i, m, found) is Fits <==> fields_fit(pats, i, pats.spine().len() as int, m),
        fit_fields(pats, i, m, found) is Faulty <==> exists|j: int|
            i <= j < pats.spine().len() && fields_fit(pats, i, j, m) && m.contains_key((#[trigger] pats.spine()[j]).0@)
                && faulty(pats.spine()[j].1, m[pats.spine()[j].0@]),
    decreases pats, (pats.spine().len() - i) as nat,
{
    let n = pats.spine().len() as int;
    if i < n {
        pats.lemma_values_smaller();
        let key = pats.spine()[i].0@;
        let pat = pats.spine()[i].1;
        if m.contains_key(key) {
            law_fitting_does_not_rest_on_what_was_found(pat, m[key], found);
            match fit(pat, m[key], found) {
                Fit::Fits(more) => {
                    lemma_fields_fit(pats, i + 1, m, more);
                    assert(fits(pat, m[key]));
                    assert(fields_fit(pats, i, n, m) <==> fields_fit(pats, i + 1, n, m));
                    assert forall|j: int| i < j <= n implies fields_fit(pats, i, j, m) == #[trigger] fields_fit(
                        pats,
                        i + 1,
                        j,
                        m,
                    ) by {}
                    assert(!faulty(pat, m[key]));
                    if fit_fields(pats, i + 1, m, more) is Faulty {
                        let j = choose|j: int|
                            i + 1 <= j < n && fields_fit(pats, i + 1, j, m) && m.contains_key(
                                (#[trigger] pats.spine()[j]).0@,
                            ) && faulty(pats.spine()[j].1, m[pats.spine()[j].0@]);
                        assert(fields_fit(pats, i, j, m));
                        assert(m.contains_key(pats.spine()[j].0@));
                    }
                    if exists|j: int|
                        i <= j < n && fields_fit(pats, i, j, m) && m.contains_key((#[trigger] pats.spine()[j]).0@)
                            && faulty(pats.spine()[j].1, m[pats.spine()[j].0@]) {
                        let j = choose|j: int|
                            i <= j < n && fields_fit(pats, i, j, m) && m.contains_key((#[trigger] pats.spine()[j]).0@)
                                && faulty(pats.spine()[j].1, m[pats.spine()[j].0@]);
                        assert(j > i);
                        assert(fields_fit(pats, i + 1, j, m));
                    }
                },
                Fit::Differs(_) => {
                    assert(!fits(pats.spine()[i].1, m[pats.spine()[i].0@]));
                    assert(!faulty(pats.spine()[i].1, m[pats.spine()[i].0@]));
                    lemma_stopped(pats, i, m);
                },
                Fit::Faulty(_) => {
                    assert(!fits(pats.spine()[i].1, m[pats.spine()[i].0@]));
                    assert(fields_fit(pats, i, i, m));
                    assert(m.contains_key(pats.spine()[i].0@) && faulty(
                        pats.spine()[i].1,
                        m[pats.spine()[i].0@],
                    ));
                },
            }
        } else {
            assert(!m.contains_key(pats.spine()[i].0@));
            lemma_stopped(pats, i, m);
        }
    }
}

/// A field pattern from the `i`-th on binds the name.
spec fn bound_from(pats: NameMap<String, Pattern>, i: int, k: Seq<char>) -> bool {
    exists|j: int| i <= j < pats.spine().len() && binds((#[trigger] pats.spine()[j]).1, k)
}

proof fn lemma_bound_from(pats: NameMap<String, Pattern>, i: int, k: Seq<char>)
    requires
        0 <= i < pats.spine().len(),
    ensures
        bound_from(pats, i, k) <==> binds(pats.spine()[i].1, k) || bound_from(pats, i + 1, k),
{
    let e = pats.spine()[i];
    if binds(e.1, k) {
        assert(binds(pats.spine()[i].1, k));
    }
    if bound_from(pats, i + 1, k) {
        let j = choose|j: int| i + 1 <= j < pats.spine().len() && binds((#[trigger] pats.spine()[j]).1, k);
        assert(binds(pats.spine()[j].1, k));
    }
}

/// Which variables the fields find, and what they stand for.
proof fn lemma_fields_found<'a>(
    pats: NameMap<String, Pattern>,
    i: int,
    m: Map<Seq<char>, Val<'a>>,
    found: Scope<'a>,
    j: int,
    k: Seq<char>,
)
    requires
        0 <= i <= pats.spine().len(),
        fit_fields(pats, i, m, found) is Fits,
    ensures
        ({
            let all = fit_fields(pats, i, m, found)->Fits_0;
            &&& all.contains_key(k) <==> found.contains_key(k) || bound_from(pats, i, k)
            &&& found.contains_key(k) && !bound_from(pats, i, k) ==> all[k] == found[k]
            &&& i <= j < pats.spine().len() && binds(pats.spine()[j].1, k) && !bound_from(pats, j + 1, k) ==> all[k]
                == variables(pats.spine()[j].1, m[pats.spine()[j].0@])[k]
        }),
    decreases pats, (pats.spine().len() - i) as nat,
{
    if i < pats.spine().len() {
        pats.lemma_values_smaller();
        let key = pats.spine()[i].0@;
        let pat = pats.spine()[i].1;
        law_fitting_does_not_rest_on_what_was_found(pat, m[key], found);
        let more = fit(pat, m[key], found)->Fits_0;
        assert(more == found.union_prefer_right(variables(pat, m[key])));
        lemma_fields_found(pats, i + 1, m, more, j, k);
        law_variables_of_a_pattern(pat, m[key]);
        assert(variables(pat, m[key]).contains_key(k) <==> binds(pat, k));
        lemma_bound_from(pats, i, k);
    }
}

/// A field that is missing, or does not fit, ends the comparison.
proof fn lemma_stopped<'a>(pats: NameMap<String, Pattern>, i: int, m: Map<Seq<char>, Val<'a>>)
    requires
        0 <= i < pats.spine().len(),
        !m.contains_key(pats.spine()[i].0@) || (!fits(pats.spine()[i].1, m[pats.spine()[i].0@]) && !faulty(
            pats.spine()[i].1,
            m[pats.spine()[i].0@],
        )),
    ensures
        !fields_fit(pats, i, pats.spine().len() as int, m),
        !(exists|j: int|
            i <= j < pats.spine().len() && fields_fit(pats, i, j, m) && m.contains_key((#[trigger] pats.spine()[j]).0@)
                && faulty(pats.spine()[j].1, m[pats.spine()[j].0@])),
{
    let e = pats.spine()[i];
    assert forall|j: int| i < j <= pats.spine().len() implies !(#[trigger] fields_fit(pats, i, j, m)) by {
        assert(pats.spine()[i] == e);
    }
}

/// A pattern that fits finds exactly the variables that it binds.
pub proof fn law_variables_of_a_pattern<'a>(pat: Pattern, v: Val<'a>)
    requires
        fits(pat, v),
    ensures
        forall|k: Seq<char>| #[trigger] variables(pat, v).contains_key(k) <==> binds(pat, k),
    decreases pat, 0nat,
{
    match pat {
        Pattern::Identifier(id) => {},
        Pattern::Tagged { key, value } => {
            law_variables_of_a_pattern(*value, *v->Tagged_1);
            assert forall|k: Seq<char>| #[trigger] variables(pat, v).contains_key(k) <==> binds(pat, k) by {
                assert(variables(*value, *v->Tagged_1).contains_key(k) <==> binds(*value, k));
            }
        },
        Pattern::Record(rec) => {
            assert forall|k: Seq<char>| #[trigger] variables(pat, v).contains_key(k) <==> binds(pat, k) by {
                lemma_fields_found(rec.inner, 0, v->Record_0, Map::empty(), 0, k);
                assert(binds(pat, k) <==> bound_from(rec.inner, 0, k));
            }
        },
        Pattern::Unit => {},
    }
}

/// A record pattern fits a record exactly where the record has at least as many fields, has every field
/// that the pattern names, and each of these fits the pattern beside its name, whatever pattern that is.
/// Of the variables each stands for what it stands for in its own field; where two fields bind one
/// name, the later counts. Something else than a record does not fit.
pub proof fn law_record_patterns_fit_field_by_field<'a>(rec: Offsetted<NameMap<String, Pattern>>, v: Val<'a>)
    ensures
        !(v is Record) ==> !fits(Pattern::Record(rec), v) && !faulty(Pattern::Record(rec), v),
        v matches Val::Record(m) ==> (fits(Pattern::Record(rec), v) <==> rec.inner.spine().len() <= m.len() && forall|
            j: int,
        |
            0 <= j < rec.inner.spine().len() ==> m.contains_key((#[trigger] rec.inner.spine()[j]).0@) && fits(
                rec.inner.spine()[j].1,
                m[rec.inner.spine()[j].0@],
            )),
        v matches Val::Record(m) ==> (faulty(Pattern::Record(rec), v) <==> rec.inner.spine().len() <= m.len()
            && exists|j: int|
            0 <= j < rec.inner.spine().len() && m.contains_key((#[trigger] rec.inner.spine()[j]).0@) && faulty(
                rec.inner.spine()[j].1,
                m[rec.inner.spine()[j].0@],
            ) && forall|l: int|
                0 <= l < j ==> m.contains_key((#[trigger] rec.inner.spine()[l]).0@) && fits(
                    rec.inner.spine()[l].1,
                    m[rec.inner.spine()[l].0@],
                )),
        v matches Val::Record(m) ==> fits(Pattern::Record(rec), v) ==> forall|j: int, k: Seq<char>|
            #![trigger binds(rec.inner.spine()[j].1, k)]
            0 <= j < rec.inner.spine().len() && binds(rec.inner.spine()[j].1, k) && (forall|l: int|
                j < l < rec.inner.spine().len() ==> !binds((#[trigger] rec.inner.spine()[l]).1, k)) ==> variables(
                Pattern::Record(rec),
                v,
            )[k] == variables(rec.inner.spine()[j].1, m[rec.inner.spine()[j].0@])[k],
{
    match v {
        Val::Record(m) => {
            let pats = rec.inner;
            let n = pats.spine().len() as int;
            lemma_fields_fit(pats, 0, m, Map::empty());
            if rec.inner.spine().len() <= m.len() {
                assert(fits(Pattern::Record(rec), v) <==> fields_fit(pats, 0, n, m));
                if fits(Pattern::Record(rec), v) {
                    assert forall|j: int, k: Seq<char>|
                        #![trigger binds(rec.inner.spine()[j].1, k)]
                        0 <= j < n && binds(rec.inner.spine()[j].1, k) && (forall|l: int|
                            j < l < n ==> !binds((#[trigger] rec.inner.spine()[l]).1, k)) implies variables(
                        Pattern::Record(rec),
                        v,
                    )[k] == variables(rec.inner.spine()[j].1, m[rec.inner.spine()[j].0@])[k] by {
                        assert(!bound_from(pats, j + 1, k));
                        lemma_fields_found(pats, 0, m, Map::empty(), j, k);
                    }
                }
                if faulty(Pattern::Record(rec), v) {
                    let j = choose|j: int|
                        0 <= j < n && fields_fit(pats, 0, j, m) && m.contains_key((#[trigger] pats.spine()[j]).0@)
                            && faulty(pats.spine()[j].1, m[pats.spine()[j].0@]);
                    assert(m.contains_key(pats.spine()[j].0@));
                }
                if exists|j: int|
                    0 <= j < n && m.contains_key((#[trigger] pats.spine()[j]).0@) && faulty(
                        pats.spine()[j].1,
                        m[pats.spine()[j].0@],
                    ) && forall|l: int|
                        0 <= l < j ==> m.contains_key((#[trigger] pats.spine()[l]).0@) && fits(
                            pats.spine()[l].1,
                            m[pats.spine()[l].0@],
                        ) {
                    let j = choose|j: int|
                        0 <= j < n && m.contains_key((#[trigger] pats.spine()[j]).0@) && faulty(
                            pats.spine()[j].1,
                            m[pats.spine()[j].0@],
                        ) && forall|l: int|
                            0 <= l < j ==> m.contains_key((#[trigger] pats.spine()[l]).0@) && fits(
                                pats.spine()[l].1,
                                m[pats.spine()[l].0@],
                            );
                    assert(fields_fit(pats, 0, j, m));
                    assert(m.contains_key(pats.spine()[j].0@));
                }
            }
        },
        _ => {},
    }
}

/// A match takes the first alternative whose pattern fits, with the variables of that pattern, provided
/// that no earlier one is faulty; a faulty one that comes before all that fit is a fault, and so is it
/// where none fits and none is faulty.
pub proof fn law_match_takes_the_first_alternative<'a>(cases: Seq<Case>, v: Val<'a>, at: int)
    requires
        0 <= at <= cases.len(),
        forall|j: int| 0 <= j < at ==> !fits((#[trigger] cases[j]).pat, v) && !faulty(cases[j].pat, v),
    ensures
        at < cases.len() && fits(cases[at].pat, v) ==> select(cases, 0, v) == Choice::Taken(
            at,
            variables(cases[at].pat, v),
        ),
        at < cases.len() && faulty(cases[at].pat, v) ==> select(cases, 0, v) == Choice::<'a>::Stuck(
            Fault::UnitPattern,
        ),
        at == cases.len() ==> select(cases, 0, v) == Choice::<'a>::Stuck(Fault::NoCaseFits),
{
    lemma_passed_over(cases, v, 0, at);
}

proof fn lemma_passed_over<'a>(cases: Seq<Case>, v: Val<'a>, i: int, at: int)
    requires
        0 <= i <= at <= cases.len(),
        forall|j: int| 0 <= j < at ==> !fits((#[trigger] cases[j]).pat, v) && !faulty(cases[j].pat, v),
    ensures
        select(cases, i, v) == select(cases, at, v),
    decreases at - i,
{
    if i < at {
        assert(!fits(cases[i].pat, v) && !faulty(cases[i].pat, v));
        lemma_passed_over(cases, v, i + 1, at);
    }
}

} // verus!
