//! Outcome counts for treated and untreated trials, overall and within the
//! groups of a confounding variable. A success rate is the quotient of two
//! of these counts; comparing the rates overall with the rates within the
//! groups shows where a confounding variable reverses a conclusion.

use vstd::prelude::*;

verus! {

/// Represents a single data point for causal analysis.
#[derive(Clone)]
pub struct TreatmentData {
    /// Whether the treatment was applied.
    pub treated: bool,
    /// The outcome of the experiment.
    pub outcome: bool,
    /// A confounding variable that might affect the outcome.
    pub confounding_variable: String,
}

/// How many trials were treated or not, and how many of each succeeded.
#[derive(Clone, Copy, Debug, PartialEq, Eq)]
pub struct OutcomeCounts {
    /// Treated trials that succeeded.
    pub treated_success: u64,
    /// Treated trials.
    pub treated_total: u64,
    /// Untreated trials that succeeded.
    pub untreated_success: u64,
    /// Untreated trials.
    pub untreated_total: u64,
}

/// The trial counts: it belongs to `group` (every trial does when `group`
/// is `None`), was treated or not as `treated` says, and succeeded if
/// `success_only` asks for that.
pub open spec fn selected(
    d: TreatmentData,
    group: Option<Seq<char>>,
    treated: bool,
    success_only: bool,
) -> bool {
    &&& group matches Some(g) ==> d.confounding_variable@ == g
    &&& d.treated == treated
    &&& success_only ==> d.outcome
}

/// The number of trials of `data` that count.
pub open spec fn count_selected(
    data: Seq<TreatmentData>,
    group: Option<Seq<char>>,
    treated: bool,
    success_only: bool,
) -> nat
    decreases data.len(),
{
    if data.len() == 0 {
        0
    } else {
        count_selected(data.drop_last(), group, treated, success_only) + if selected(
            data.last(),
            group,
            treated,
            success_only,
        ) {
            1nat
        } else {
            0nat
        }
    }
}

/// No more trials count than there are.
pub proof fn lemma_count_bound(
    data: Seq<TreatmentData>,
    group: Option<Seq<char>>,
    treated: bool,
    success_only: bool,
)
    ensures
        count_selected(data, group, treated, success_only) <= data.len(),
    decreases data.len(),
{
    if data.len() > 0 {
        lemma_count_bound(data.drop_last(), group, treated, success_only);
    }
}

/// The counts that `counts` must hold for `data` and `group`.
pub open spec fn counts_of(data: Seq<TreatmentData>, group: Option<Seq<char>>, c: OutcomeCounts) -> bool {
    &&& c.treated_success == count_selected(data, group, true, true)
    &&& c.treated_total == count_selected(data, group, true, false)
    &&& c.untreated_success == count_selected(data, group, false, true)
    &&& c.untreated_total == count_selected(data, group, false, false)
}

fn count_in(data: &[TreatmentData], group: Option<&String>) -> (c: OutcomeCounts)
    ensures
        counts_of(
            data@,
            match group {
                Some(g) => Some(g@),
                None => None,
            },
            c,
        ),
{
    let ghost g: Option<Seq<char>> = match group {
        Some(g) => Some(g@),
        None => None,
    };
    let mut c = OutcomeCounts {
        treated_success: 0,
        treated_total: 0,
        untreated_success: 0,
        untreated_total: 0,
    };
    let mut i: usize = 0;
    while i < data.len()
        invariant
            i <= data@.len(),
            g == (match group {
                Some(g) => Some(g@),
                None => None,
            }),
            counts_of(data@.take(i as int), g, c),
        decreases data@.len() - i,
    {
        proof {
            let next = data@.take(i + 1);
            assert(next.drop_last() =~= data@.take(i as int));
            assert(next.last() == data@[i as int]);
            lemma_count_bound(next, g, true, true);
            lemma_count_bound(next, g, true, false);
            lemma_count_bound(next, g, false, true);
            lemma_count_bound(next, g, false, false);
        }
        let member = match group {
            Some(name) => data[i].confounding_variable == *name,
            None => true,
        };
        if member {
            if data[i].treated {
                c.treated_total += 1;
                if data[i].outcome {
                    c.treated_success += 1;
                }
            } else {
                c.untreated_total += 1;
                if data[i].outcome {
                    c.untreated_success += 1;
                }
            }
        }
        i += 1;
    }
    assert(data@.take(data@.len() as int) =~= data@);
    c
}

/// Analyzes the overall outcomes for treated and untreated trials: how many
/// there were of each, and how many of each succeeded.
pub fn analyze_data(data: &[TreatmentData]) -> (c: OutcomeCounts)
    ensures
        counts_of(data@, None, c),
{
    count_in(data, None)
}

/// Analyzes the outcomes for treated and untreated trials, stratified by the
/// confounding variable: one entry for each of its values, in the order in
/// which they first occur, with the counts of the trials that have it.
pub fn analyze_data_by_group(data: &[TreatmentData]) -> (results: Vec<(String, OutcomeCounts)>)
    ensures
        results@.len() == group_names(data@).len(),
        forall|i: int|
            0 <= i < results@.len() ==> (#[trigger] results@[i]).0@ == group_names(data@)[i]
                && counts_of(data@, Some(group_names(data@)[i]), results@[i].1),
{
    let names = groups(data);
    let mut results: Vec<(String, OutcomeCounts)> = Vec::new();
    let mut i: usize = 0;
    while i < names.len()
        invariant
            i <= names@.len(),
            names_view(names@) == group_names(data@),
            results@.len() == i,
            forall|j: int|
                0 <= j < i ==> (#[trigger] results@[j]).0@ == group_names(data@)[j] && counts_of(
                    data@,
                    Some(group_names(data@)[j]),
                    results@[j].1,
                ),
        decreases names@.len() - i,
    {
        assert(names_view(names@)[i as int] == names@[i as int]@);
        let counts = count_in(data, Some(&names[i]));
        results.push((names[i].clone(), counts));
        i += 1;
    }
    results
}

/// The values of the confounding variable in `data`, each once, in the
/// order in which they first occur.
pub open spec fn group_names(data: Seq<TreatmentData>) -> Seq<Seq<char>>
    decreases data.len(),
{
    if data.len() == 0 {
        Seq::empty()
    } else {
        let earlier = group_names(data.drop_last());
        if earlier.contains(data.last().confounding_variable@) {
            earlier
        } else {
            earlier.push(data.last().confounding_variable@)
        }
    }
}

/// The names as sequences of characters.
pub open spec fn names_view(names: Seq<String>) -> Seq<Seq<char>> {
    names.map_values(|n: String| n@)
}

/// `group_names` lists the variable of every trial, lists only such
/// variables, and lists none twice.
pub proof fn lemma_group_names(data: Seq<TreatmentData>)
    ensures
        forall|i: int|
            0 <= i < data.len() ==> group_names(data).contains(
                (#[trigger] data[i]).confounding_variable@,
            ),
        forall|j: int|
            0 <= j < group_names(data).len() ==> exists|i: int|
                0 <= i < data.len() && (#[trigger] data[i]).confounding_variable@
                    == #[trigger] group_names(data)[j],
        group_names(data).no_duplicates(),
    decreases data.len(),
{
    if data.len() > 0 {
        let rest = data.drop_last();
        let earlier = group_names(rest);
        let g = data.last().confounding_variable@;
        let all = group_names(data);
        lemma_group_names(rest);
        assert forall|i: int| 0 <= i < data.len() implies all.contains(
            (#[trigger] data[i]).confounding_variable@,
        ) by {
            if i < rest.len() {
                assert(rest[i] == data[i]);
                let h = data[i].confounding_variable@;
                assert(earlier.contains(h));
                let j = choose|j: int| 0 <= j < earlier.len() && earlier[j] == h;
                assert(all[j] == h);
            } else if earlier.contains(g) {
            } else {
                assert(all[earlier.len() as int] == g);
            }
        }
        assert forall|j: int| 0 <= j < all.len() implies exists|i: int|
            0 <= i < data.len() && (#[trigger] data[i]).confounding_variable@ == #[trigger] all[j] by {
            if j < earlier.len() {
                let i = choose|i: int|
                    0 <= i < rest.len() && (#[trigger] rest[i]).confounding_variable@ == earlier[j];
                assert(data[i] == rest[i]);
                assert(all[j] == earlier[j]);
                assert(data[i].confounding_variable@ == all[j]);
            } else {
                assert(data[data.len() - 1].confounding_variable@ == all[j]);
            }
        }
    }
}

/// The values of the confounding variable in `data`, each once, in the
/// order in which they first occur.
fn groups(data: &[TreatmentData]) -> (names: Vec<String>)
    ensures
        names_view(names@) == group_names(data@),
{
    let mut names: Vec<String> = Vec::new();
    let mut i: usize = 0;
    assert(names_view(names@) =~= group_names(data@.take(0)));
    while i < data.len()
        invariant
            i <= data@.len(),
            names_view(names@) == group_names(data@.take(i as int)),
        decreases data@.len() - i,
    {
        let ghost g = data@[i as int].confounding_variable@;
        let ghost earlier = names_view(names@);
        let mut known = false;
        let mut j: usize = 0;
        while j < names.len()
            invariant
                i < data@.len(),
                g == data@[i as int].confounding_variable@,
                earlier == names_view(names@),
                j <= names@.len(),
                known ==> earlier.contains(g),
                !known ==> forall|k: int| 0 <= k < j ==> (#[trigger] earlier[k]) != g,
            decreases names@.len() - j,
        {
            if names[j] == data[i].confounding_variable {
                assert(earlier[j as int] == g);
                known = true;
            }
            j += 1;
        }
        if !known {
            names.push(data[i].confounding_variable.clone());
        }
        proof {
            let next = data@.take(i + 1);
            assert(next.drop_last() =~= data@.take(i as int));
            assert(next.last() == data@[i as int]);
            if !known {
                assert(names_view(names@) =~= earlier.push(g));
            }
        }
        i += 1;
    }
    assert(data@.take(data@.len() as int) =~= data@);
    names
}

} // verus!
