//! Searching the cache for the package that owns a binary.
use crate::interner::{decode_utf8_entry, entry_readable, ArchivedStringInterner};
use crate::types::{
    binaries_contents, entries_view, is_enumeration, record_readable, records_readable,
    ArchivedDataRoot, DataRoot, Header, Record,
};
use vstd::prelude::*;

verus! {

/// Smallest of three numbers.
pub open spec fn min3(a: nat, b: nat, c: nat) -> nat {
    if a <= b && a <= c {
        a
    } else if b <= c {
        b
    } else {
        c
    }
}

/// Levenshtein distance: the minimum number of single character
/// insertions, deletions and substitutions that turn `a` into `b`.
pub open spec fn levenshtein(a: Seq<char>, b: Seq<char>) -> nat
    decreases a.len() + b.len(),
{
    if a.len() == 0 {
        b.len()
    } else if b.len() == 0 {
        a.len()
    } else {
        min3(
            levenshtein(a.drop_first(), b) + 1,
            levenshtein(a, b.drop_first()) + 1,
            levenshtein(a.drop_first(), b.drop_first()) + if a[0] == b[0] {
                0nat
            } else {
                1nat
            },
        )
    }
}

/// Calls `strsim::levenshtein`, which counts the insertions, deletions and
/// substitutions of characters needed to turn `a` into `b`.
#[verifier::external_body]
fn levenshtein_distance(a: &str, b: &str) -> (r: usize)
    ensures
        r == levenshtein(a@, b@),
{
    strsim::levenshtein(a, b)
}

/// A string is at distance zero from itself.
pub proof fn lemma_levenshtein_self(a: Seq<char>)
    ensures
        levenshtein(a, a) == 0,
    decreases a.len(),
{
    if a.len() > 0 {
        lemma_levenshtein_self(a.drop_first());
    }
}

/// Only equal strings are at distance zero.
pub proof fn lemma_levenshtein_zero(a: Seq<char>, b: Seq<char>)
    requires
        levenshtein(a, b) == 0,
    ensures
        a == b,
    decreases a.len() + b.len(),
{
    if a.len() == 0 {
        assert(b =~= a);
    } else if b.len() == 0 {
    } else {
        lemma_levenshtein_zero(a.drop_first(), b.drop_first());
        assert(a =~= seq![a[0]] + a.drop_first());
        assert(b =~= seq![b[0]] + b.drop_first());
    }
}

/// A search result
#[derive(Clone, Debug, PartialEq, Eq, PartialOrd, Ord)]
pub struct Suggestion {
    pub distance: u8,
    pub repo: String,
    pub package: String,
    pub directory: String,
    pub command: String,
}

/// The value a [`Suggestion`] stands for.
pub struct SuggestionView {
    pub distance: u8,
    pub repo: Seq<char>,
    pub package: Seq<char>,
    pub directory: Seq<char>,
    pub command: Seq<char>,
}

impl View for Suggestion {
    type V = SuggestionView;

    open spec fn view(&self) -> SuggestionView {
        SuggestionView {
            distance: self.distance,
            repo: self.repo@,
            package: self.package@,
            directory: self.directory@,
            command: self.command@,
        }
    }
}

/// The suggestion that `record`, found under `command`, stands for.
pub open spec fn suggestion_for(
    record: Record,
    command: Seq<char>,
    interner: Seq<u8>,
    repo: Seq<char>,
    distance: u8,
) -> SuggestionView {
    SuggestionView {
        distance,
        repo,
        package: decode_utf8_entry(interner, record.package.0.offset as int),
        directory: decode_utf8_entry(interner, record.directory.0.offset as int),
        command,
    }
}

/// The suggestions for a list of records found under `command`.
pub open spec fn suggestions_for(
    records: Seq<Record>,
    command: Seq<char>,
    interner: Seq<u8>,
    repo: Seq<char>,
    distance: u8,
) -> Seq<SuggestionView> {
    records.map_values(|r: Record| suggestion_for(r, command, interner, repo, distance))
}

/// Suggestions for an exact search of `term`.
pub open spec fn exact_results(
    binaries: Map<Seq<char>, Seq<Record>>,
    term: Seq<char>,
    interner: Seq<u8>,
    repo: Seq<char>,
) -> Seq<SuggestionView> {
    if binaries.contains_key(term) {
        suggestions_for(binaries[term], term, interner, repo, 0)
    } else {
        seq![]
    }
}

/// Suggestions for a fuzzy search of `term`, visiting `entries` in order.
pub open spec fn fuzzy_results(
    entries: Seq<(Seq<char>, Seq<Record>)>,
    term: Seq<char>,
    max_dist: u8,
    interner: Seq<u8>,
    repo: Seq<char>,
) -> Seq<SuggestionView>
    decreases entries.len(),
{
    if entries.len() == 0 {
        seq![]
    } else {
        let (key, records) = entries.last();
        let d = levenshtein(key, term);
        fuzzy_results(entries.drop_last(), term, max_dist, interner, repo) + if d <= max_dist {
            suggestions_for(records, key, interner, repo, d as u8)
        } else {
            seq![]
        }
    }
}

/// `res` is what a search of `term` with edit distance `max_dist` in `data`
/// gives: the exact matches for distance zero, and otherwise the records of
/// every key within the distance, key by key in some order of the keys.
pub open spec fn is_search_result(
    data: &ArchivedDataRoot,
    term: Seq<char>,
    max_dist: u8,
    res: Seq<SuggestionView>,
) -> bool {
    if max_dist == 0 {
        res == exact_results(binaries_contents(data.binaries), term, data.interner@, data.repository@)
    } else {
        exists|entries: Seq<(Seq<char>, Seq<Record>)>|
            is_enumeration(entries, binaries_contents(data.binaries)) && res == fuzzy_results(
                entries,
                term,
                max_dist,
                data.interner@,
                data.repository@,
            )
    }
}

/// Views of a list of suggestions.
pub open spec fn suggestions_view(v: Seq<Suggestion>) -> Seq<SuggestionView> {
    v.map_values(|s: Suggestion| s@)
}

impl Suggestion {
    fn from_record(
        record: &Record,
        command: &str,
        interner: &ArchivedStringInterner,
        repo: &str,
        distance: u8,
    ) -> (r: Self)
        requires
            record_readable(interner@, *record),
        ensures
            r@ == suggestion_for(*record, command@, interner@, repo@, distance),
    {
        Self {
            repo: repo.to_owned(),
            package: interner.get(record.package.0).to_owned(),
            directory: interner.get(record.directory.0).to_owned(),
            command: command.to_owned(),
            distance,
        }
    }
}

/// Appends the suggestions for `records` found under `command`.
fn push_suggestions(
    out: &mut Vec<Suggestion>,
    records: &Vec<Record>,
    command: &str,
    interner: &ArchivedStringInterner,
    repo: &str,
    distance: u8,
)
    requires
        forall|i: int| 0 <= i < records@.len() ==> record_readable(interner@, #[trigger] records@[i]),
    ensures
        suggestions_view(final(out)@) == suggestions_view(old(out)@) + suggestions_for(
            records@,
            command@,
            interner@,
            repo@,
            distance,
        ),
{
    let ghost start = suggestions_view(out@);
    let mut i: usize = 0;
    while i < records.len()
        invariant
            i <= records@.len(),
            forall|k: int| 0 <= k < records@.len() ==> record_readable(interner@, #[trigger] records@[k]),
            suggestions_view(out@) == start + suggestions_for(
                records@.take(i as int),
                command@,
                interner@,
                repo@,
                distance,
            ),
        decreases records.len() - i,
    {
        let s = Suggestion::from_record(&records[i], command, interner, repo, distance);
        let ghost before = out@;
        out.push(s);
        assert(out@ =~= before.push(s));
        assert(suggestions_view(out@) =~= suggestions_view(before).push(s@));
        assert(records@.take(i + 1) =~= records@.take(i as int).push(records@[i as int]));
        assert(suggestions_for(records@.take(i + 1), command@, interner@, repo@, distance)
            =~= suggestions_for(records@.take(i as int), command@, interner@, repo@, distance).push(
            s@,
        ));
        assert(suggestions_view(out@) =~= start + suggestions_for(
            records@.take(i + 1),
            command@,
            interner@,
            repo@,
            distance,
        ));
        i = i + 1;
    }
    assert(records@.take(i as int) =~= records@);
}

/// The records stored under `term` in `entries`, the last such entry
/// winning.
pub open spec fn entry_for(entries: Seq<(Seq<char>, Seq<Record>)>, term: Seq<char>) -> Option<
    Seq<Record>,
>
    decreases entries.len(),
{
    if entries.len() == 0 {
        None
    } else if entries.last().0 == term {
        Some(entries.last().1)
    } else {
        entry_for(entries.drop_last(), term)
    }
}

proof fn lemma_exact_only_of_records(
    records: Seq<Record>,
    key: Seq<char>,
    interner: Seq<u8>,
    repo: Seq<char>,
    d: u8,
)
    ensures
        exact_only(suggestions_for(records, key, interner, repo, d)) == if d == 0 {
            suggestions_for(records, key, interner, repo, d)
        } else {
            Seq::<SuggestionView>::empty()
        },
    decreases records.len(),
{
    let f = |r: Record| suggestion_for(r, key, interner, repo, d);
    let p = |s: SuggestionView| s.distance == 0;
    if records.len() == 0 {
        assert(suggestions_for(records, key, interner, repo, d) =~= Seq::<SuggestionView>::empty());
        Seq::<SuggestionView>::empty().lemma_filter_len(p);
    } else {
        let init = records.drop_last();
        lemma_exact_only_of_records(init, key, interner, repo, d);
        assert(records =~= init.push(records.last()));
        assert(suggestions_for(records, key, interner, repo, d) =~= suggestions_for(
            init,
            key,
            interner,
            repo,
            d,
        ).push(f(records.last())));
        suggestions_for(init, key, interner, repo, d).lemma_filter_push(f(records.last()), p);
    }
}

proof fn lemma_exact_only_of_fuzzy(
    entries: Seq<(Seq<char>, Seq<Record>)>,
    term: Seq<char>,
    max_dist: u8,
    interner: Seq<u8>,
    repo: Seq<char>,
)
    requires
        max_dist > 0,
        forall|i: int, j: int|
            0 <= i < entries.len() && 0 <= j < entries.len() && i != j ==> #[trigger] entries[i].0
                != #[trigger] entries[j].0,
    ensures
        exact_only(fuzzy_results(entries, term, max_dist, interner, repo)) == match entry_for(
            entries,
            term,
        ) {
            Some(records) => suggestions_for(records, term, interner, repo, 0),
            None => Seq::<SuggestionView>::empty(),
        },
    decreases entries.len(),
{
    let p = |s: SuggestionView| s.distance == 0;
    if entries.len() == 0 {
        Seq::<SuggestionView>::empty().lemma_filter_len(p);
    } else {
        let init = entries.drop_last();
        let (key, records) = entries.last();
        let d = levenshtein(key, term);
        lemma_exact_only_of_fuzzy(init, term, max_dist, interner, repo);
        let part = if d <= max_dist {
            suggestions_for(records, key, interner, repo, d as u8)
        } else {
            Seq::<SuggestionView>::empty()
        };
        Seq::filter_distributes_over_add(
            fuzzy_results(init, term, max_dist, interner, repo),
            part,
            p,
        );
        if key == term {
            lemma_levenshtein_self(term);
            lemma_exact_only_of_records(records, key, interner, repo, 0);
            assert(entry_for(init, term) is None) by {
                if entry_for(init, term) is Some {
                    lemma_entry_for_some(init, term);
                    let j = choose|j: int| 0 <= j < init.len() && init[j].0 == term;
                    assert(entries[j].0 == entries[entries.len() - 1].0);
                }
            }
            assert(Seq::<SuggestionView>::empty() + suggestions_for(records, term, interner, repo, 0)
                =~= suggestions_for(records, term, interner, repo, 0));
        } else {
            if d == 0 {
                lemma_levenshtein_zero(key, term);
            }
            if d <= max_dist {
                lemma_exact_only_of_records(records, key, interner, repo, d as u8);
            } else {
                Seq::<SuggestionView>::empty().lemma_filter_len(p);
            }
            assert(forall|i: int, j: int|
                0 <= i < init.len() && 0 <= j < init.len() && i != j ==> #[trigger] init[i].0
                    != #[trigger] init[j].0) by {
                assert forall|i: int, j: int|
                    0 <= i < init.len() && 0 <= j < init.len() && i != j implies #[trigger] init[i].0
                    != #[trigger] init[j].0 by {
                    assert(init[i] == entries[i]);
                    assert(init[j] == entries[j]);
                }
            }
            let ex = match entry_for(init, term) {
                Some(rs) => suggestions_for(rs, term, interner, repo, 0),
                None => Seq::<SuggestionView>::empty(),
            };
            assert(ex + Seq::<SuggestionView>::empty() =~= ex);
        }
    }
}

proof fn lemma_entry_for_some(entries: Seq<(Seq<char>, Seq<Record>)>, term: Seq<char>)
    requires
        entry_for(entries, term) is Some,
    ensures
        exists|j: int| 0 <= j < entries.len() && entries[j].0 == term,
    decreases entries.len(),
{
    if entries.last().0 != term {
        lemma_entry_for_some(entries.drop_last(), term);
        let j = choose|j: int| 0 <= j < entries.drop_last().len() && entries.drop_last()[j].0 == term;
        assert(entries[j].0 == term);
    } else {
        assert(entries[entries.len() - 1].0 == term);
    }
}

proof fn lemma_entry_for_enumeration(
    entries: Seq<(Seq<char>, Seq<Record>)>,
    m: Map<Seq<char>, Seq<Record>>,
    term: Seq<char>,
)
    requires
        is_enumeration(entries, m),
    ensures
        entry_for(entries, term) == if m.contains_key(term) {
            Some(m[term])
        } else {
            None::<Seq<Record>>
        },
    decreases entries.len(),
{
    if m.contains_key(term) {
        let j = choose|j: int| 0 <= j < entries.len() && entries[j].0 == term;
        lemma_entry_for_at(entries, term, j);
    } else if entry_for(entries, term) is Some {
        lemma_entry_for_some(entries, term);
        let j = choose|j: int| 0 <= j < entries.len() && entries[j].0 == term;
        assert(m.contains_key(entries[j].0));
    }
}

proof fn lemma_entry_for_at(entries: Seq<(Seq<char>, Seq<Record>)>, term: Seq<char>, j: int)
    requires
        0 <= j < entries.len(),
        entries[j].0 == term,
        forall|i: int, k: int|
            0 <= i < entries.len() && 0 <= k < entries.len() && i != k ==> #[trigger] entries[i].0
                != #[trigger] entries[k].0,
    ensures
        entry_for(entries, term) == Some(entries[j].1),
    decreases entries.len(),
{
    if j != entries.len() - 1 {
        let init = entries.drop_last();
        assert(entries[entries.len() - 1].0 != entries[j].0);
        assert(init[j] == entries[j]);
        assert forall|i: int, k: int|
            0 <= i < init.len() && 0 <= k < init.len() && i != k implies #[trigger] init[i].0
            != #[trigger] init[k].0 by {
            assert(init[i] == entries[i]);
            assert(init[k] == entries[k]);
        }
        lemma_entry_for_at(init, term, j);
    }
}

/// The exact matches among the results of a fuzzy search are exactly the
/// results of the exact search for the same term, in the same order.
pub proof fn lemma_exact_matches_of_fuzzy_search(
    entries: Seq<(Seq<char>, Seq<Record>)>,
    m: Map<Seq<char>, Seq<Record>>,
    term: Seq<char>,
    max_dist: u8,
    interner: Seq<u8>,
    repo: Seq<char>,
)
    requires
        is_enumeration(entries, m),
        max_dist > 0,
    ensures
        exact_only(fuzzy_results(entries, term, max_dist, interner, repo)) == exact_results(
            m,
            term,
            interner,
            repo,
        ),
{
    lemma_exact_only_of_fuzzy(entries, term, max_dist, interner, repo);
    lemma_entry_for_enumeration(entries, m, term);
}

/// Every result of a fuzzy search carries the distance of its command from
/// the search term, which is at most the allowed distance.
pub proof fn lemma_fuzzy_distances(
    entries: Seq<(Seq<char>, Seq<Record>)>,
    term: Seq<char>,
    max_dist: u8,
    interner: Seq<u8>,
    repo: Seq<char>,
    i: int,
)
    requires
        0 <= i < fuzzy_results(entries, term, max_dist, interner, repo).len(),
    ensures
        ({
            let s = fuzzy_results(entries, term, max_dist, interner, repo)[i];
            s.distance == levenshtein(s.command, term) && s.distance <= max_dist
        }),
    decreases entries.len(),
{
    let init = entries.drop_last();
    let prefix = fuzzy_results(init, term, max_dist, interner, repo);
    if i < prefix.len() {
        lemma_fuzzy_distances(init, term, max_dist, interner, repo, i);
    }
}

/// Every record that a search of `term` with edit distance `max_dist`
/// reads refers to readable strings: those stored under `term` itself for
/// distance zero, else those of every key within the distance.
pub open spec fn search_readable(data: &ArchivedDataRoot, term: Seq<char>, max_dist: u8) -> bool {
    forall|k: Seq<char>, i: int|
        #![trigger binaries_contents(data.binaries)[k][i]]
        binaries_contents(data.binaries).contains_key(k) && (if max_dist == 0 {
            k == term
        } else {
            levenshtein(k, term) <= max_dist
        }) && 0 <= i < binaries_contents(data.binaries)[k].len() ==> record_readable(
            data.interner@,
            binaries_contents(data.binaries)[k][i],
        )
}

/// In well formed data every search reads only readable records.
pub proof fn lemma_well_formed_searchable(data: &ArchivedDataRoot, term: Seq<char>, max_dist: u8)
    requires
        data.wf(),
    ensures
        search_readable(data, term, max_dist),
{
}

/// Whether a search of `search_term` with `max_edit_dist` reads only
/// records that refer to readable strings.
pub fn search_is_readable(search_term: &str, max_edit_dist: u8, data: &ArchivedDataRoot) -> (r:
    bool)
    ensures
        r == search_readable(data, search_term@, max_edit_dist),
{
    let entries = data.binaries.entries();
    let ghost ev = entries_view(entries@);
    let ghost m = binaries_contents(data.binaries);
    let mut i: usize = 0;
    while i < entries.len()
        invariant
            i <= entries.len(),
            ev == entries_view(entries@),
            m == binaries_contents(data.binaries),
            is_enumeration(ev, m),
            forall|a: int, j: int|
                #![trigger ev[a].1[j]]
                0 <= a < i && (if max_edit_dist == 0 {
                    ev[a].0 == search_term@
                } else {
                    levenshtein(ev[a].0, search_term@) <= max_edit_dist
                }) && 0 <= j < ev[a].1.len() ==> record_readable(data.interner@, ev[a].1[j]),
        decreases entries.len() - i,
    {
        let key = &entries[i].0;
        let records = &entries[i].1;
        let dist = levenshtein_distance(key.as_str(), search_term);
        proof {
            assert(ev[i as int].0 == key@);
            assert(records@ == ev[i as int].1);
            if dist == 0 {
                lemma_levenshtein_zero(key@, search_term@);
            }
            if key@ == search_term@ {
                lemma_levenshtein_self(key@);
            }
        }
        let touched = if max_edit_dist == 0 {
            dist == 0
        } else {
            dist <= max_edit_dist as usize
        };
        if touched {
            let mut j: usize = 0;
            while j < records.len()
                invariant
                    i < entries.len(),
                    j <= records.len(),
                    ev == entries_view(entries@),
                    m == binaries_contents(data.binaries),
                    is_enumeration(ev, m),
                    records@ == ev[i as int].1,
                    if max_edit_dist == 0 {
                        ev[i as int].0 == search_term@
                    } else {
                        levenshtein(ev[i as int].0, search_term@) <= max_edit_dist
                    },
                    forall|a: int, jj: int|
                        #![trigger ev[a].1[jj]]
                        0 <= a < i && (if max_edit_dist == 0 {
                            ev[a].0 == search_term@
                        } else {
                            levenshtein(ev[a].0, search_term@) <= max_edit_dist
                        }) && 0 <= jj < ev[a].1.len() ==> record_readable(data.interner@, ev[a].1[jj]),
                    forall|b: int| 0 <= b < j ==> record_readable(data.interner@, #[trigger] records@[b]),
                decreases records.len() - j,
            {
                let rec = records[j];
                if data.interner.try_get(rec.package.0).is_none() || data.interner.try_get(
                    rec.directory.0,
                ).is_none() {
                    proof {
                        let k = ev[i as int].0;
                        assert(m.contains_key(k));
                        assert(m[k] == records@);
                        assert(m[k][j as int] == rec);
                    }
                    return false;
                }
                j = j + 1;
            }
        }
        i = i + 1;
    }
    proof {
        assert forall|k: Seq<char>, b: int|
            m.contains_key(k) && (if max_edit_dist == 0 {
                k == search_term@
            } else {
                levenshtein(k, search_term@) <= max_edit_dist
            }) && 0 <= b < m[k].len() implies record_readable(
            data.interner@,
            #[trigger] m[k][b],
        ) by {
            let a = choose|a: int| 0 <= a < ev.len() && ev[a].0 == k;
            assert(ev[a].1 == m[k]);
            assert(record_readable(data.interner@, ev[a].1[b]));
        }
    }
    true
}

/// Search an archived data root.
pub fn search_data_root(search_term: &str, max_edit_dist: u8, data: &ArchivedDataRoot) -> (r:
    Result<Vec<Suggestion>, LookupError>)
    requires
        search_readable(data, search_term@, max_edit_dist),
    ensures
        r matches Ok(v) && is_search_result(data, search_term@, max_edit_dist, suggestions_view(v@)),
{
    if max_edit_dist == 0 {
        let exact_match = data.binaries.get(search_term);
        if let Some(records) = exact_match {
            assert forall|j: int| 0 <= j < records@.len() implies record_readable(
                data.interner@,
                #[trigger] records@[j],
            ) by {
                assert(binaries_contents(data.binaries)[search_term@][j] == records@[j]);
            }
            let mut result: Vec<Suggestion> = Vec::new();
            push_suggestions(
                &mut result,
                &records,
                search_term,
                &data.interner,
                data.repository.as_str(),
                0,
            );
            assert(suggestions_view(Seq::<Suggestion>::empty()) =~= Seq::<SuggestionView>::empty());
            assert(suggestions_view(result@) =~= exact_results(
                binaries_contents(data.binaries),
                search_term@,
                data.interner@,
                data.repository@,
            ));
            return Ok(result);
        }
        let empty: Vec<Suggestion> = Vec::new();
        assert(suggestions_view(empty@) =~= Seq::<SuggestionView>::empty());
        Ok(empty)
    } else {
        let mut suggestions: Vec<Suggestion> = Vec::new();
        // Fuzzy search
        let entries = data.binaries.entries();
        let ghost ev = entries_view(entries@);
        assert(suggestions_view(suggestions@) =~= fuzzy_results(
            ev.take(0),
            search_term@,
            max_edit_dist,
            data.interner@,
            data.repository@,
        ));
        let mut i: usize = 0;
        while i < entries.len()
            invariant
                i <= entries@.len(),
                ev == entries_view(entries@),
                is_enumeration(ev, binaries_contents(data.binaries)),
                max_edit_dist > 0,
                search_readable(data, search_term@, max_edit_dist),
                suggestions_view(suggestions@) == fuzzy_results(
                    ev.take(i as int),
                    search_term@,
                    max_edit_dist,
                    data.interner@,
                    data.repository@,
                ),
            decreases entries.len() - i,
        {
            let key = &entries[i].0;
            let value = &entries[i].1;
            let dist = levenshtein_distance(key.as_str(), search_term);
            proof {
                assert(ev[i as int].0 == key@);
                assert(ev[i as int].1 == value@);
                assert(ev.take(i + 1).drop_last() =~= ev.take(i as int));
                assert(ev.take(i + 1).last() == ev[i as int]);
            }
            if dist <= max_edit_dist as usize {
                proof {
                    let k = ev[i as int].0;
                    assert(binaries_contents(data.binaries).contains_key(k));
                    assert forall|j: int| 0 <= j < value@.len() implies record_readable(
                        data.interner@,
                        #[trigger] value@[j],
                    ) by {
                        assert(binaries_contents(data.binaries)[k][j] == value@[j]);
                    }
                }
                push_suggestions(
                    &mut suggestions,
                    value,
                    key.as_str(),
                    &data.interner,
                    data.repository.as_str(),
                    dist as u8,
                );
            } else {
                assert(suggestions_view(suggestions@) =~= fuzzy_results(
                    ev.take(i + 1),
                    search_term@,
                    max_edit_dist,
                    data.interner@,
                    data.repository@,
                ));
            }
            i = i + 1;
        }
        assert(ev.take(i as int) =~= ev);
        Ok(suggestions)
    }
}

/// Errors of a lookup.
#[derive(Debug, Clone, Copy, PartialEq, Eq, Structural)]
pub enum LookupError {
    /// No cache files were found.
    NoCacheFiles,
    /// A cache file has a header of another format or version.
    InvalidHeader,
    /// A cache file refers to strings it does not hold.
    CorruptCache,
}

impl LookupError {
    /// A description of the error.
    pub fn message(&self) -> (r: String)
        ensures
            r@ == match self {
                LookupError::NoCacheFiles => "No cache files found (if this is a new install: sudo filkoll update && sudo systemctl enable filkoll.timer)"@,
                LookupError::InvalidHeader => "Invalid header in cache file"@,
                LookupError::CorruptCache => "Cache file refers to strings it does not hold"@,
            },
    {
        match self {
            LookupError::NoCacheFiles => "No cache files found (if this is a new install: sudo filkoll update && sudo systemctl enable filkoll.timer)".to_owned(),
            LookupError::InvalidHeader => "Invalid header in cache file".to_owned(),
            LookupError::CorruptCache => "Cache file refers to strings it does not hold".to_owned(),
        }
    }

    /// How the user can fix the error.
    pub fn suggestion(&self) -> (r: String)
        ensures
            r@ == match self {
                LookupError::NoCacheFiles => "If this is a new install: sudo filkoll update && sudo systemctl enable filkoll.timer"@,
                LookupError::InvalidHeader => "Try sudo filkoll update"@,
                LookupError::CorruptCache => "Try sudo filkoll update"@,
            },
    {
        match self {
            LookupError::NoCacheFiles => "If this is a new install: sudo filkoll update && sudo systemctl enable filkoll.timer".to_owned(),
            LookupError::InvalidHeader => "Try sudo filkoll update".to_owned(),
            LookupError::CorruptCache => "Try sudo filkoll update".to_owned(),
        }
    }
}

/// Checks the header of a cache file before its data is read.
pub fn check_header(header: &Header, expected_hash: u64) -> (r: Result<(), LookupError>)
    ensures
        r is Ok <==> header.spec_is_valid(expected_hash),
        r matches Err(e) ==> e == LookupError::InvalidHeader,
{
    if !header.is_valid(expected_hash) {
        return Err(LookupError::InvalidHeader);
    }
    Ok(())
}

/// Search the data of one cache file; it fails where the search would
/// read a record that refers to strings the file does not hold.
pub fn search_in_file(search_term: &str, max_edit_dist: u8, data: &ArchivedDataRoot) -> (r:
    Result<Vec<Suggestion>, LookupError>)
    ensures
        r is Ok <==> search_readable(data, search_term@, max_edit_dist),
        r matches Err(e) ==> e == LookupError::CorruptCache,
        r matches Ok(v) ==> is_search_result(data, search_term@, max_edit_dist, suggestions_view(v@)),
{
    if !search_is_readable(search_term, max_edit_dist, data) {
        return Err(LookupError::CorruptCache);
    }
    search_data_root(search_term, max_edit_dist, data)
}

/// Concatenation of a list of lists.
pub open spec fn flatten(parts: Seq<Seq<SuggestionView>>) -> Seq<SuggestionView>
    decreases parts.len(),
{
    if parts.len() == 0 {
        seq![]
    } else {
        flatten(parts.drop_last()) + parts.last()
    }
}

/// The results of all cache files together are their results one after
/// another: `flatten` is the concatenation of the parts, in order, and each
/// part stands whole at the offset where the parts before it end.
pub proof fn lemma_flatten_concatenates(parts: Seq<Seq<SuggestionView>>)
    ensures
        flatten(parts) == parts.flatten(),
        forall|i: int|
            0 <= i < parts.len() ==> flatten(parts).subrange(
                parts.take(i).flatten().len() as int,
                (parts.take(i).flatten().len() + parts[i].len()) as int,
            ) == #[trigger] parts[i],
    decreases parts.len(),
{
    lemma_flatten_is_alt(parts);
    parts.lemma_flatten_and_flatten_alt_are_equivalent();
    if parts.len() > 0 {
        let init = parts.drop_last();
        lemma_flatten_concatenates(init);
        assert forall|i: int|
            0 <= i < parts.len() implies flatten(parts).subrange(
            parts.take(i).flatten().len() as int,
            (parts.take(i).flatten().len() + parts[i].len()) as int,
        ) == #[trigger] parts[i] by {
            if i < parts.len() - 1 {
                assert(parts.take(i) =~= init.take(i));
                assert(init[i] == parts[i]);
                let off = init.take(i).flatten().len() as int;
                assert(flatten(init).subrange(off, off + init[i].len()) == init[i]);
                assert(flatten(parts) == flatten(init) + parts.last());
                let t = init.take(i + 1);
                assert(t.drop_last() =~= init.take(i));
                assert(t.last() == init[i]);
                lemma_flatten_concatenates(init.take(i));
                assert(flatten(t) == flatten(init.take(i)) + init[i]);
                assert(flatten(init.take(i)).len() == off);
                lemma_flatten_prefix_len(init, i + 1);
                assert(off + init[i].len() <= flatten(init).len());
                assert(flatten(parts).subrange(off, off + parts[i].len()) =~= flatten(init).subrange(
                    off,
                    off + init[i].len(),
                ));
            } else {
                assert(parts.take(i) =~= init);
                assert(flatten(parts) == flatten(init) + parts.last());
                assert(flatten(parts).subrange(flatten(init).len() as int, flatten(parts).len() as int)
                    =~= parts.last());
            }
        }
    }
}

proof fn lemma_flatten_is_alt(parts: Seq<Seq<SuggestionView>>)
    ensures
        flatten(parts) == parts.flatten_alt(),
    decreases parts.len(),
{
    if parts.len() > 0 {
        lemma_flatten_is_alt(parts.drop_last());
    }
}

proof fn lemma_flatten_prefix_len(parts: Seq<Seq<SuggestionView>>, k: int)
    requires
        0 <= k <= parts.len(),
    ensures
        flatten(parts.take(k)).len() <= flatten(parts).len(),
        flatten(parts).subrange(0, flatten(parts.take(k)).len() as int) == flatten(parts.take(k)),
    decreases parts.len() - k,
{
    if k < parts.len() {
        lemma_flatten_prefix_len(parts, k + 1);
        let a = parts.take(k + 1);
        assert(a.drop_last() =~= parts.take(k));
        assert(flatten(a) == flatten(parts.take(k)) + a.last());
        assert(flatten(parts).subrange(0, flatten(parts.take(k)).len() as int) =~= flatten(a).subrange(
            0,
            flatten(parts.take(k)).len() as int,
        ));
    } else {
        assert(parts.take(k) =~= parts);
    }
}

/// The suggestions at distance zero.
pub open spec fn exact_only(v: Seq<SuggestionView>) -> Seq<SuggestionView> {
    v.filter(|s: SuggestionView| s.distance == 0)
}

/// What a lookup returns from the results of all cache files: all of them,
/// or only the exact matches when asked for and there are any.
pub open spec fn select_results(all: Seq<SuggestionView>, no_fuzzy_if_exact: bool) -> Seq<
    SuggestionView,
> {
    if no_fuzzy_if_exact && exact_only(all).len() > 0 {
        exact_only(all)
    } else {
        all
    }
}

/// A copy of a suggestion.
fn copy_of(s: &Suggestion) -> (r: Suggestion)
    ensures
        r@ == s@,
{
    Suggestion {
        distance: s.distance,
        repo: s.repo.clone(),
        package: s.package.clone(),
        directory: s.directory.clone(),
        command: s.command.clone(),
    }
}

/// Keeps only the exact matches when asked to and there are any.
fn select_suggestions(results: Vec<Suggestion>, no_fuzzy_if_exact: bool) -> (r: Vec<Suggestion>)
    ensures
        suggestions_view(r@) == select_results(suggestions_view(results@), no_fuzzy_if_exact),
{
    if no_fuzzy_if_exact {
        // Filter out any exact matches
        let mut exact_matches: Vec<Suggestion> = Vec::new();
        let mut i: usize = 0;
        while i < results.len()
            invariant
                i <= results@.len(),
                suggestions_view(exact_matches@) == exact_only(
                    suggestions_view(results@).take(i as int),
                ),
            decreases results.len() - i,
        {
            proof {
                let sv = suggestions_view(results@);
                assert(sv.take(i + 1).drop_last() =~= sv.take(i as int));
                assert(sv.take(i + 1).last() == results@[i as int]@);
                assert(sv.take(i + 1) =~= sv.take(i as int).push(sv[i as int]));
                sv.take(i as int).lemma_filter_push(sv[i as int], |s: SuggestionView| s.distance == 0);
            }
            if results[i].distance == 0 {
                let ghost before = exact_matches@;
                exact_matches.push(copy_of(&results[i]));
                assert(suggestions_view(exact_matches@) =~= suggestions_view(before).push(
                    results@[i as int]@,
                ));
                assert(suggestions_view(exact_matches@) =~= exact_only(
                    suggestions_view(results@).take(i + 1),
                ));
            } else {
                assert(suggestions_view(exact_matches@) =~= exact_only(
                    suggestions_view(results@).take(i + 1),
                ));
            }
            i = i + 1;
        }
        assert(suggestions_view(results@).take(i as int) =~= suggestions_view(results@));
        if exact_matches.len() > 0 {
            return exact_matches;
        }
    }
    results
}

/// `res` is what a lookup of `term` in `files` gives: the search result of
/// each file, in file order, with only the exact matches kept where asked
/// for and there are any.
pub open spec fn is_lookup_result(
    files: Seq<ArchivedDataRoot>,
    term: Seq<char>,
    max_dist: u8,
    no_fuzzy_if_exact: bool,
    res: Seq<SuggestionView>,
) -> bool {
    exists|parts: Seq<Seq<SuggestionView>>|
        {
            &&& parts.len() == files.len()
            &&& forall|i: int|
                0 <= i < parts.len() ==> is_search_result(&files[i], term, max_dist, #[trigger] parts[i])
            &&& res == select_results(flatten(parts), no_fuzzy_if_exact)
        }
}

/// Without "no fuzzy if exact", a lookup gives the search results of every
/// cache file, one file after another, each whole and in file order.
pub proof fn lemma_lookup_concatenates(
    files: Seq<ArchivedDataRoot>,
    term: Seq<char>,
    max_dist: u8,
    res: Seq<SuggestionView>,
)
    requires
        is_lookup_result(files, term, max_dist, false, res),
    ensures
        exists|parts: Seq<Seq<SuggestionView>>|
            {
                &&& parts.len() == files.len()
                &&& forall|i: int|
                    0 <= i < parts.len() ==> is_search_result(&files[i], term, max_dist, #[trigger] parts[i])
                &&& res == parts.flatten()
                &&& forall|i: int|
                    0 <= i < parts.len() ==> res.subrange(
                        parts.take(i).flatten().len() as int,
                        (parts.take(i).flatten().len() + parts[i].len()) as int,
                    ) == #[trigger] parts[i]
            },
{
    let parts = choose|parts: Seq<Seq<SuggestionView>>|
        {
            &&& parts.len() == files.len()
            &&& forall|i: int|
                0 <= i < parts.len() ==> is_search_result(&files[i], term, max_dist, #[trigger] parts[i])
            &&& res == select_results(flatten(parts), false)
        };
    lemma_flatten_concatenates(parts);
    assert(res == flatten(parts));
}

/// The exact matches of a search do not depend on the order in which a
/// fuzzy search went through the keys.
proof fn lemma_exact_part_determined(
    data: &ArchivedDataRoot,
    term: Seq<char>,
    max_dist: u8,
    a: Seq<SuggestionView>,
    b: Seq<SuggestionView>,
)
    requires
        is_search_result(data, term, max_dist, a),
        is_search_result(data, term, max_dist, b),
    ensures
        exact_only(a) == exact_only(b),
{
    if max_dist > 0 {
        let m = binaries_contents(data.binaries);
        let ea = choose|e: Seq<(Seq<char>, Seq<Record>)>|
            is_enumeration(e, m) && a == fuzzy_results(e, term, max_dist, data.interner@, data.repository@);
        let eb = choose|e: Seq<(Seq<char>, Seq<Record>)>|
            is_enumeration(e, m) && b == fuzzy_results(e, term, max_dist, data.interner@, data.repository@);
        lemma_exact_matches_of_fuzzy_search(ea, m, term, max_dist, data.interner@, data.repository@);
        lemma_exact_matches_of_fuzzy_search(eb, m, term, max_dist, data.interner@, data.repository@);
    }
}

proof fn lemma_exact_only_flatten(p1: Seq<Seq<SuggestionView>>, p2: Seq<Seq<SuggestionView>>)
    requires
        p1.len() == p2.len(),
        forall|i: int| 0 <= i < p1.len() ==> exact_only(#[trigger] p1[i]) == exact_only(p2[i]),
    ensures
        exact_only(flatten(p1)) == exact_only(flatten(p2)),
    decreases p1.len(),
{
    let p = |s: SuggestionView| s.distance == 0;
    if p1.len() == 0 {
    } else {
        let i1 = p1.drop_last();
        let i2 = p2.drop_last();
        assert forall|i: int| 0 <= i < i1.len() implies exact_only(#[trigger] i1[i]) == exact_only(i2[i]) by {
            assert(i1[i] == p1[i]);
            assert(i2[i] == p2[i]);
        }
        lemma_exact_only_flatten(i1, i2);
        Seq::filter_distributes_over_add(flatten(i1), p1.last(), p);
        Seq::filter_distributes_over_add(flatten(i2), p2.last(), p);
        assert(exact_only(p1.last()) == exact_only(p2.last()));
    }
}

/// With "no fuzzy if exact", a lookup gives exactly the exact matches of a
/// plain lookup where that has any, and otherwise what a plain lookup
/// gives.
pub proof fn lemma_no_fuzzy_if_exact(
    files: Seq<ArchivedDataRoot>,
    term: Seq<char>,
    max_dist: u8,
    plain: Seq<SuggestionView>,
    selected: Seq<SuggestionView>,
)
    requires
        is_lookup_result(files, term, max_dist, false, plain),
        is_lookup_result(files, term, max_dist, true, selected),
    ensures
        exact_only(plain).len() > 0 ==> selected == exact_only(plain),
        exact_only(plain).len() == 0 ==> is_lookup_result(files, term, max_dist, false, selected),
{
    let p1 = choose|parts: Seq<Seq<SuggestionView>>|
        {
            &&& parts.len() == files.len()
            &&& forall|i: int|
                0 <= i < parts.len() ==> is_search_result(&files[i], term, max_dist, #[trigger] parts[i])
            &&& plain == select_results(flatten(parts), false)
        };
    let p2 = choose|parts: Seq<Seq<SuggestionView>>|
        {
            &&& parts.len() == files.len()
            &&& forall|i: int|
                0 <= i < parts.len() ==> is_search_result(&files[i], term, max_dist, #[trigger] parts[i])
            &&& selected == select_results(flatten(parts), true)
        };
    assert forall|i: int| 0 <= i < p1.len() implies exact_only(#[trigger] p1[i]) == exact_only(p2[i]) by {
        lemma_exact_part_determined(&files[i], term, max_dist, p1[i], p2[i]);
    }
    lemma_exact_only_flatten(p1, p2);
    assert(plain == flatten(p1));
    if exact_only(plain).len() == 0 {
        assert(selected == select_results(flatten(p2), false));
    }
}

/// How often `v` occurs among the suggestions for the records of its own
/// command, where that command is within `max_dist` of `term`.
pub open spec fn fuzzy_count(
    m: Map<Seq<char>, Seq<Record>>,
    v: SuggestionView,
    term: Seq<char>,
    max_dist: u8,
    interner: Seq<u8>,
    repo: Seq<char>,
) -> nat {
    let k = v.command;
    if m.contains_key(k) && levenshtein(k, term) <= max_dist {
        suggestions_for(m[k], k, interner, repo, levenshtein(k, term) as u8).to_multiset().count(v)
    } else {
        0
    }
}

proof fn lemma_not_of_command(
    records: Seq<Record>,
    key: Seq<char>,
    interner: Seq<u8>,
    repo: Seq<char>,
    d: u8,
    v: SuggestionView,
)
    requires
        v.command != key,
    ensures
        suggestions_for(records, key, interner, repo, d).to_multiset().count(v) == 0,
{
    broadcast use vstd::seq_lib::to_multiset_contains;

    let part = suggestions_for(records, key, interner, repo, d);
    if part.contains(v) {
        let i = choose|i: int| 0 <= i < part.len() && part[i] == v;
        assert(part[i].command == key);
    }
}

proof fn lemma_fuzzy_count_entries(
    entries: Seq<(Seq<char>, Seq<Record>)>,
    term: Seq<char>,
    max_dist: u8,
    interner: Seq<u8>,
    repo: Seq<char>,
    v: SuggestionView,
)
    requires
        forall|i: int, j: int|
            0 <= i < entries.len() && 0 <= j < entries.len() && i != j ==> #[trigger] entries[i].0
                != #[trigger] entries[j].0,
    ensures
        fuzzy_results(entries, term, max_dist, interner, repo).to_multiset().count(v) == match entry_for(
            entries,
            v.command,
        ) {
            Some(rs) => if levenshtein(v.command, term) <= max_dist {
                suggestions_for(
                    rs,
                    v.command,
                    interner,
                    repo,
                    levenshtein(v.command, term) as u8,
                ).to_multiset().count(v)
            } else {
                0
            },
            None => 0,
        },
    decreases entries.len(),
{
    broadcast use vstd::seq_lib::to_multiset_contains, vstd::seq_lib::lemma_multiset_commutative;
    broadcast use vstd::multiset::group_multiset_axioms;

    if entries.len() == 0 {
        assert(!Seq::<SuggestionView>::empty().contains(v));
    } else {
        let init = entries.drop_last();
        let (key, records) = entries.last();
        let d = levenshtein(key, term);
        assert forall|i: int, j: int|
            0 <= i < init.len() && 0 <= j < init.len() && i != j implies #[trigger] init[i].0
            != #[trigger] init[j].0 by {
            assert(init[i] == entries[i]);
            assert(init[j] == entries[j]);
        }
        lemma_fuzzy_count_entries(init, term, max_dist, interner, repo, v);
        let part = if d <= max_dist {
            suggestions_for(records, key, interner, repo, d as u8)
        } else {
            Seq::<SuggestionView>::empty()
        };
        let prefix = fuzzy_results(init, term, max_dist, interner, repo);
        assert(fuzzy_results(entries, term, max_dist, interner, repo) == prefix + part);
        assert((prefix + part).to_multiset().count(v) == prefix.to_multiset().count(v)
            + part.to_multiset().count(v));
        if key == v.command {
            assert(entry_for(init, key) is None) by {
                if entry_for(init, key) is Some {
                    lemma_entry_for_some(init, key);
                    let j = choose|j: int| 0 <= j < init.len() && init[j].0 == key;
                    assert(entries[j].0 == entries[entries.len() - 1].0);
                }
            }
            if d > max_dist {
                assert(!part.contains(v));
            }
        } else {
            if d <= max_dist {
                lemma_not_of_command(records, key, interner, repo, d as u8, v);
            } else {
                assert(!part.contains(v));
            }
        }
    }
}

proof fn lemma_fuzzy_count(
    entries: Seq<(Seq<char>, Seq<Record>)>,
    m: Map<Seq<char>, Seq<Record>>,
    term: Seq<char>,
    max_dist: u8,
    interner: Seq<u8>,
    repo: Seq<char>,
    v: SuggestionView,
)
    requires
        is_enumeration(entries, m),
    ensures
        fuzzy_results(entries, term, max_dist, interner, repo).to_multiset().count(v) == fuzzy_count(
            m,
            v,
            term,
            max_dist,
            interner,
            repo,
        ),
{
    lemma_fuzzy_count_entries(entries, term, max_dist, interner, repo, v);
    lemma_entry_for_enumeration(entries, m, v.command);
}

/// Searching with a larger edit distance finds everything that a search
/// with a smaller one finds: each result occurs at least as often.
pub proof fn lemma_search_monotone(
    data: &ArchivedDataRoot,
    term: Seq<char>,
    d1: u8,
    d2: u8,
    r1: Seq<SuggestionView>,
    r2: Seq<SuggestionView>,
)
    requires
        d1 <= d2,
        is_search_result(data, term, d1, r1),
        is_search_result(data, term, d2, r2),
    ensures
        r1.to_multiset().subset_of(r2.to_multiset()),
{
    broadcast use vstd::seq_lib::to_multiset_contains;

    let m = binaries_contents(data.binaries);
    let interner = data.interner@;
    let repo = data.repository@;
    if d2 > 0 {
        let e2 = choose|e: Seq<(Seq<char>, Seq<Record>)>|
            is_enumeration(e, m) && r2 == fuzzy_results(e, term, d2, interner, repo);
        assert forall|v: SuggestionView| r1.to_multiset().count(v) <= r2.to_multiset().count(v) by {
            lemma_fuzzy_count(e2, m, term, d2, interner, repo, v);
            if d1 > 0 {
                let e1 = choose|e: Seq<(Seq<char>, Seq<Record>)>|
                    is_enumeration(e, m) && r1 == fuzzy_results(e, term, d1, interner, repo);
                lemma_fuzzy_count(e1, m, term, d1, interner, repo, v);
            } else if m.contains_key(term) {
                if v.command == term {
                    lemma_levenshtein_self(term);
                } else {
                    lemma_not_of_command(m[term], term, interner, repo, 0, v);
                }
            } else {
                assert(!r1.contains(v));
            }
        }
    }
}

/// A binary that an update recorded is found by an exact search for its
/// name in the cache written from that update: every one of its records,
/// in order, with the package and directory that the interner holds.
pub proof fn lemma_update_then_search(
    d: &DataRoot,
    a: &ArchivedDataRoot,
    name: Seq<char>,
    res: Seq<SuggestionView>,
)
    requires
        records_readable(d.interner@, binaries_contents(d.binaries)),
        a.interner@ == d.interner@,
        a.repository@ == d.repository@,
        binaries_contents(a.binaries) == binaries_contents(d.binaries),
        binaries_contents(d.binaries).contains_key(name),
        is_search_result(a, name, 0, res),
    ensures
        a.wf(),
        res == suggestions_for(binaries_contents(d.binaries)[name], name, d.interner@, d.repository@, 0),
        res.len() == binaries_contents(d.binaries)[name].len(),
        forall|i: int|
            0 <= i < res.len() ==> entry_readable(
                d.interner@,
                binaries_contents(d.binaries)[name][i].package.0.offset as int,
            ) && (#[trigger] res[i]).package == decode_utf8_entry(
                d.interner@,
                binaries_contents(d.binaries)[name][i].package.0.offset as int,
            ),
{
    crate::types::lemma_written_index_well_formed(d, a);
    assert forall|i: int| 0 <= i < res.len() implies entry_readable(
        d.interner@,
        binaries_contents(d.binaries)[name][i].package.0.offset as int,
    ) && (#[trigger] res[i]).package == decode_utf8_entry(
        d.interner@,
        binaries_contents(d.binaries)[name][i].package.0.offset as int,
    ) by {
        assert(record_readable(d.interner@, binaries_contents(d.binaries)[name][i]));
    }
}

/// Look up `search_term` in the data of every cache file.
pub fn lookup(
    edit_distance: u8,
    no_fuzzy_if_exact: bool,
    search_term: &str,
    files: &Vec<ArchivedDataRoot>,
) -> (r: Result<Vec<Suggestion>, LookupError>)
    ensures
        files@.len() == 0 ==> (r matches Err(e) && e == LookupError::NoCacheFiles),
        files@.len() > 0 && (exists|i: int|
            0 <= i < files@.len() && !#[trigger] search_readable(
                &files@[i],
                search_term@,
                edit_distance,
            ))
            ==> (r matches Err(e) && e == LookupError::CorruptCache),
        r is Ok <==> files@.len() > 0 && forall|i: int|
            0 <= i < files@.len() ==> #[trigger] search_readable(
                &files@[i],
                search_term@,
                edit_distance,
            ),
        r matches Ok(v) ==> is_lookup_result(
            files@,
            search_term@,
            edit_distance,
            no_fuzzy_if_exact,
            suggestions_view(v@),
        ),
{
    if files.len() == 0 {
        return Err(LookupError::NoCacheFiles);
    }
    let mut results: Vec<Suggestion> = Vec::new();
    let ghost mut parts: Seq<Seq<SuggestionView>> = seq![];
    let mut i: usize = 0;
    while i < files.len()
        invariant
            i <= files@.len(),
            parts.len() == i,
            forall|k: int|
                0 <= k < i ==> #[trigger] search_readable(&files@[k], search_term@, edit_distance),
            forall|k: int|
                0 <= k < i ==> is_search_result(
                    &files@[k],
                    search_term@,
                    edit_distance,
                    #[trigger] parts[k],
                ),
            suggestions_view(results@) == flatten(parts),
        decreases files.len() - i,
    {
        let found = search_in_file(search_term, edit_distance, &files[i]);
        match found {
            Ok(v) => {
                let ghost before = suggestions_view(results@);
                let mut v = v;
                proof {
                    assert((parts.push(suggestions_view(v@))).drop_last() =~= parts);
                }
                let ghost part = suggestions_view(v@);
                results.append(&mut v);
                proof {
                    parts = parts.push(part);
                }
                assert(suggestions_view(results@) =~= before + part);
            },
            Err(e) => {
                return Err(e);
            },
        }
        i = i + 1;
    }
    Ok(select_suggestions(results, no_fuzzy_if_exact))
}

} // verus!
