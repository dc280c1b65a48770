//! Teams, their order, and their extraction from certificates.

use crate::order::{bytes_lt, lemma_lex_irreflexive, lemma_lex_total, lemma_lex_transitive, lex_lt};
use crate::x509::{pem_subjects, subjects_from_pem};
use openssl::error::ErrorStack;
use vstd::prelude::*;
use vstd::utf8::{encode_utf8, encode_utf8_decode_utf8};

verus! {

/// A development team: the Organization and the Organizational Unit of a
/// signing certificate's subject.
#[derive(Debug, Clone)]
pub struct Team {
    pub name: String,
    pub id: String,
}

/// A team as a value: its name and its id.
pub type TeamKey = (Seq<char>, Seq<char>);

impl View for Team {
    type V = TeamKey;

    open spec fn view(&self) -> TeamKey {
        (self.name@, self.id@)
    }
}

impl PartialEq for Team {
    fn eq(&self, other: &Team) -> (r: bool) {
        self.name == other.name && self.id == other.id
    }
}

impl vstd::std_specs::cmp::PartialEqSpecImpl for Team {
    open spec fn obeys_eq_spec() -> bool {
        true
    }

    open spec fn eq_spec(&self, other: &Team) -> bool {
        self@ == other@
    }
}

impl Eq for Team {

}

/// An attribute of a certificate subject that a team is read from.
#[derive(Debug, Clone, Copy, PartialEq, Eq, Structural)]
pub enum DnField {
    Organization,
    OrganizationalUnit,
}

/// Why no list of teams could be had.
#[derive(Debug)]
pub enum FindTeamsError {
    /// The certificate bundle could not be retrieved.
    FindCertsError(String),
    /// The bundle does not decode into certificates.
    ParseX509Error(ErrorStack),
    /// A certificate subject lacks the attribute.
    MissingX509Field(DnField),
    /// An attribute's value is not valid UTF-8.
    AsUtf8Error(ErrorStack),
}

/// Teams are ordered by the bytes of their name, then by those of their id.
pub open spec fn team_lt(a: TeamKey, b: TeamKey) -> bool {
    lex_lt(encode_utf8(a.0), encode_utf8(b.0)) || (a.0 == b.0 && lex_lt(
        encode_utf8(a.1),
        encode_utf8(b.1),
    ))
}

/// The keys of a sequence of teams.
pub open spec fn keys(s: Seq<Team>) -> Seq<TeamKey> {
    s.map_values(|t: Team| t@)
}

/// Each key comes strictly before every later one.
pub open spec fn strictly_ascending(s: Seq<TeamKey>) -> bool {
    forall|i: int, j: int| 0 <= i < j < s.len() ==> #[trigger] team_lt(s[i], s[j])
}

/// `out` is the set of teams of `input`, each once, in ascending order.
pub open spec fn collected(input: Seq<TeamKey>, out: Seq<TeamKey>) -> bool {
    &&& strictly_ascending(out)
    &&& out.no_duplicates()
    &&& out.to_set() == input.to_set()
}

/// No team comes before itself.
pub proof fn lemma_team_irreflexive(a: TeamKey)
    ensures
        !team_lt(a, a),
{
    lemma_lex_irreflexive(encode_utf8(a.0));
    lemma_lex_irreflexive(encode_utf8(a.1));
}

/// The order on teams is transitive.
pub proof fn lemma_team_transitive(a: TeamKey, b: TeamKey, c: TeamKey)
    requires
        team_lt(a, b),
        team_lt(b, c),
    ensures
        team_lt(a, c),
{
    let (an, bn, cn) = (encode_utf8(a.0), encode_utf8(b.0), encode_utf8(c.0));
    if lex_lt(an, bn) && lex_lt(bn, cn) {
        lemma_lex_transitive(an, bn, cn);
    } else if lex_lt(an, bn) {
        assert(b.0 == c.0);
    } else if lex_lt(bn, cn) {
        assert(a.0 == b.0);
    } else {
        lemma_lex_transitive(encode_utf8(a.1), encode_utf8(b.1), encode_utf8(c.1));
    }
}

/// Of two different teams exactly one comes first.
pub proof fn lemma_team_total(a: TeamKey, b: TeamKey)
    ensures
        a != b ==> (team_lt(a, b) || team_lt(b, a)),
        !(team_lt(a, b) && team_lt(b, a)),
{
    let (an, bn) = (encode_utf8(a.0), encode_utf8(b.0));
    let (ai, bi) = (encode_utf8(a.1), encode_utf8(b.1));
    lemma_lex_total(an, bn);
    lemma_lex_total(ai, bi);
    lemma_lex_irreflexive(an);
    encode_utf8_decode_utf8(a.0);
    encode_utf8_decode_utf8(b.0);
    encode_utf8_decode_utf8(a.1);
    encode_utf8_decode_utf8(b.1);
    if a.0 != b.0 {
        assert(an != bn);
    } else if a.1 != b.1 {
        assert(ai != bi);
    }
}

/// Compares two teams in the order `team_lt`.
fn team_less(a: &Team, b: &Team) -> (r: bool)
    ensures
        r == team_lt(a@, b@),
{
    bytes_lt(a.name.as_str().as_bytes(), b.name.as_str().as_bytes()) || (a.name == b.name
        && bytes_lt(a.id.as_str().as_bytes(), b.id.as_str().as_bytes()))
}


/// What a certificate's subject holds for each attribute that a team is
/// read from: its first entry, as UTF-8 text or the error of converting it,
/// or `None` where the subject has no entry for it.
pub struct Subject {
    pub organization: Option<Result<String, ErrorStack>>,
    pub unit: Option<Result<String, ErrorStack>>,
}

/// A first entry as a value: `None` where there is none, `Some(None)` where
/// it is not UTF-8, else its text.
pub type EntryView = Option<Option<Seq<char>>>;

pub open spec fn entry_view(entry: Option<Result<String, ErrorStack>>) -> EntryView {
    match entry {
        None => None,
        Some(Err(_)) => Some(None),
        Some(Ok(text)) => Some(Some(text@)),
    }
}

/// A subject as a value: its Organization entry, then its Organizational
/// Unit entry.
pub open spec fn subject_view(subject: Subject) -> (EntryView, EntryView) {
    (entry_view(subject.organization), entry_view(subject.unit))
}

/// The team a subject yields, where both of its entries hold text.
pub open spec fn team_of(subject: (EntryView, EntryView)) -> Option<TeamKey> {
    match subject {
        (Some(Some(name)), Some(Some(id))) => Some((name, id)),
        _ => None,
    }
}

/// `e` is the error reported for a subject that yields no team: the
/// Organization is checked before the Organizational Unit.
pub open spec fn subject_error(subject: (EntryView, EntryView), e: FindTeamsError) -> bool {
    match subject.0 {
        None => e matches FindTeamsError::MissingX509Field(f) && f == DnField::Organization,
        Some(None) => e is AsUtf8Error,
        Some(Some(_)) => match subject.1 {
            None => e matches FindTeamsError::MissingX509Field(f) && f
                == DnField::OrganizationalUnit,
            Some(None) => e is AsUtf8Error,
            Some(Some(_)) => false,
        },
    }
}

/// `r` is the outcome of reading a team from the two first entries of a
/// subject: the Organization's failure is reported first, and a conversion
/// error is handed on as it came.
pub open spec fn built_from(
    organization: Option<Result<String, ErrorStack>>,
    unit: Option<Result<String, ErrorStack>>,
    r: Result<Team, FindTeamsError>,
) -> bool {
    match organization {
        None => r matches Err(FindTeamsError::MissingX509Field(f)) && f == DnField::Organization,
        Some(Err(e)) => r matches Err(FindTeamsError::AsUtf8Error(e2)) && e2 == e,
        Some(Ok(name)) => match unit {
            None => r matches Err(FindTeamsError::MissingX509Field(f)) && f
                == DnField::OrganizationalUnit,
            Some(Err(e)) => r matches Err(FindTeamsError::AsUtf8Error(e2)) && e2 == e,
            Some(Ok(id)) => r matches Ok(t) && t.name == name && t.id == id,
        },
    }
}

/// Turns the first subject entry found for `field` into the attribute's
/// text: an absent entry is a missing field, an entry that is not UTF-8 an
/// encoding error.
pub fn get_x509_field(field: DnField, entry: Option<Result<String, ErrorStack>>) -> (r: Result<
    String,
    FindTeamsError,
>)
    ensures
        match entry {
            None => r matches Err(FindTeamsError::MissingX509Field(f)) && f == field,
            Some(Err(e)) => r matches Err(FindTeamsError::AsUtf8Error(e2)) && e2 == e,
            Some(Ok(s)) => r matches Ok(s2) && s2 == s,
        },
{
    match entry {
        None => Err(FindTeamsError::MissingX509Field(field)),
        Some(Err(e)) => Err(FindTeamsError::AsUtf8Error(e)),
        Some(Ok(s)) => Ok(s),
    }
}

impl Team {
    /// Builds a team from the first Organization entry and the first
    /// Organizational Unit entry of a subject. The Organization is checked
    /// first: its failure is the one reported when both fail.
    pub fn from_entries(
        organization: Option<Result<String, ErrorStack>>,
        unit: Option<Result<String, ErrorStack>>,
    ) -> (r: Result<Team, FindTeamsError>)
        ensures
            built_from(organization, unit, r),
    {
        let name = match get_x509_field(DnField::Organization, organization) {
            Ok(s) => s,
            Err(e) => return Err(e),
        };
        let id = match get_x509_field(DnField::OrganizationalUnit, unit) {
            Ok(s) => s,
            Err(e) => return Err(e),
        };
        Ok(Team { name, id })
    }

    /// Reads the team of a certificate from its subject: the name from the
    /// Organization, the id from the Organizational Unit.
    pub fn from_x509(subject: Subject) -> (r: Result<Team, FindTeamsError>)
        ensures
            built_from(subject.organization, subject.unit, r),
            team_of(subject_view(subject)) matches Some(k) ==> (r matches Ok(t) && t@ == k),
            team_of(subject_view(subject)) is None ==> (r matches Err(e) && subject_error(
                subject_view(subject),
                e,
            )),
    {
        Team::from_entries(subject.organization, subject.unit)
    }
}

/// Adds a team to an ascending list of distinct teams, where it is not yet
/// there.
pub fn insert_team(teams: &mut Vec<Team>, team: Team)
    requires
        strictly_ascending(keys(old(teams)@)),
    ensures
        strictly_ascending(keys(final(teams)@)),
        keys(final(teams)@).to_set() == keys(old(teams)@).to_set().insert(team@),
{
    let ghost before = keys(teams@);
    let mut j: usize = 0;
    let mut found = false;
    while !found && j < teams.len()
        invariant
            keys(teams@) == before,
            j <= teams@.len(),
            forall|k: int| 0 <= k < j ==> team_lt(#[trigger] before[k], team@),
            found ==> j < teams@.len() && !team_lt(before[j as int], team@),
        decreases teams@.len() - j + (if found { 0int } else { 1int }),
    {
        if team_less(&teams[j], &team) {
            j += 1;
        } else {
            found = true;
        }
    }
    if j < teams.len() && teams[j].name == team.name && teams[j].id == team.id {
        proof {
            assert(before[j as int] == team@);
            assert(before.to_set().insert(team@) =~= before.to_set());
        }
        return;
    }
    let ghost n = before.len();
    let ghost t = team@;
    proof {
        if j < n {
            lemma_team_total(before[j as int], t);
        }
        assert forall|k: int| j <= k < n implies team_lt(t, #[trigger] before[k]) by {
            if k > j {
                lemma_team_transitive(t, before[j as int], before[k]);
            }
        }
    }
    teams.insert(j, team);
    proof {
        let after = keys(teams@);
        assert(after =~= before.insert(j as int, t));
        assert forall|a: int, b: int| 0 <= a < b < after.len() implies #[trigger] team_lt(
            after[a],
            after[b],
        ) by {
            if a < j && b > j {
                lemma_team_transitive(before[a], t, before[b - 1]);
            }
        }
        assert forall|x: TeamKey| after.to_set().contains(x) <==> before.to_set().insert(
            t,
        ).contains(x) by {
            if after.to_set().contains(x) {
                let i = choose|i: int| 0 <= i < after.len() && after[i] == x;
                if i < j {
                    assert(before.contains(x));
                } else if i > j {
                    assert(before[i - 1] == x);
                }
            }
            if before.to_set().contains(x) {
                let i = choose|i: int| 0 <= i < before.len() && before[i] == x;
                if i < j {
                    assert(after[i] == x);
                } else {
                    assert(after[i + 1] == x);
                }
            }
            if x == t {
                assert(after[j as int] == x);
            }
        }
        assert(after.to_set() =~= before.to_set().insert(t));
    }
}

/// A strictly ascending sequence of teams holds each team once.
pub proof fn lemma_ascending_no_duplicates(s: Seq<TeamKey>)
    requires
        strictly_ascending(s),
    ensures
        s.no_duplicates(),
{
    assert forall|i: int, j: int| 0 <= i < s.len() && 0 <= j < s.len() && i != j implies s[i]
        != s[j] by {
        if i < j {
            assert(team_lt(s[i], s[j]));
        } else {
            assert(team_lt(s[j], s[i]));
        }
        lemma_team_irreflexive(s[i]);
    }
}

/// Two strictly ascending sequences that hold the same teams are the same
/// sequence.
pub proof fn lemma_ascending_unique(a: Seq<TeamKey>, b: Seq<TeamKey>)
    requires
        strictly_ascending(a),
        strictly_ascending(b),
        a.to_set() == b.to_set(),
    ensures
        a == b,
    decreases a.len(),
{
    if a.len() == 0 {
        if b.len() > 0 {
            assert(b.to_set().contains(b[0]));
        }
        assert(a =~= b);
    } else {
        assert(a.to_set().contains(a[0]));
        let j = choose|j: int| 0 <= j < b.len() && b[j] == a[0];
        assert(b.to_set().contains(b[0]));
        let i = choose|i: int| 0 <= i < a.len() && a[i] == b[0];
        if a[0] != b[0] {
            assert(team_lt(a[0], a[i]));
            assert(team_lt(b[0], b[j]));
            lemma_team_total(a[0], b[0]);
        }
        let (ta, tb) = (a.drop_first(), b.drop_first());
        assert forall|x: TeamKey| ta.to_set().contains(x) <==> tb.to_set().contains(x) by {
            if ta.to_set().contains(x) {
                let k = choose|k: int| 0 <= k < ta.len() && ta[k] == x;
                assert(team_lt(a[0], a[k + 1]));
                lemma_team_irreflexive(x);
                assert(a.to_set().contains(x));
                let m = choose|m: int| 0 <= m < b.len() && b[m] == x;
                assert(tb[m - 1] == x);
            }
            if tb.to_set().contains(x) {
                let k = choose|k: int| 0 <= k < tb.len() && tb[k] == x;
                assert(team_lt(b[0], b[k + 1]));
                lemma_team_irreflexive(x);
                assert(b.to_set().contains(x));
                let m = choose|m: int| 0 <= m < a.len() && a[m] == x;
                assert(ta[m - 1] == x);
            }
        }
        assert(ta.to_set() =~= tb.to_set());
        lemma_ascending_unique(ta, tb);
        assert(a =~= seq![a[0]] + ta);
        assert(b =~= seq![b[0]] + tb);
    }
}

/// Collecting is deterministic: two collections of the same teams, whatever
/// order and repetition the teams came in, give the same result.
pub proof fn lemma_collect_deterministic(
    xs: Seq<TeamKey>,
    ys: Seq<TeamKey>,
    r1: Seq<TeamKey>,
    r2: Seq<TeamKey>,
)
    requires
        xs.to_set() == ys.to_set(),
        collected(xs, r1),
        collected(ys, r2),
    ensures
        r1 == r2,
{
    lemma_ascending_unique(r1, r2);
}

/// The teams of a list, each once, in ascending order.
pub fn collect_teams(teams: Vec<Team>) -> (r: Vec<Team>)
    ensures
        collected(keys(teams@), keys(r@)),
{
    let ghost input = keys(teams@);
    let mut rest = teams;
    let mut out: Vec<Team> = Vec::new();
    proof {
        assert(keys(out@).to_set() =~= Set::empty());
        assert(keys(rest@) == input);
        assert(keys(out@).to_set().union(keys(rest@).to_set()) =~= input.to_set());
    }
    while rest.len() > 0
        invariant
            strictly_ascending(keys(out@)),
            keys(out@).to_set().union(keys(rest@).to_set()) == input.to_set(),
        decreases rest@.len(),
    {
        let ghost old_rest = keys(rest@);
        match rest.pop() {
            Some(team) => {
                proof {
                    assert(old_rest =~= keys(rest@).push(team@));
                    keys(rest@).lemma_push_to_set_commute(team@);
                }
                let ghost old_out = keys(out@);
                insert_team(&mut out, team);
                proof {
                    assert(keys(out@).to_set().union(keys(rest@).to_set()) =~= old_out.to_set().union(
                        old_rest.to_set(),
                    ));
                }
            },
            None => {},
        }
    }
    proof {
        assert(keys(rest@).to_set() =~= Set::empty());
        assert(keys(out@).to_set() =~= input.to_set());
        lemma_ascending_no_duplicates(keys(out@));
    }
    out
}

/// The development teams of a bundle of PEM certificates: the team of each
/// certificate, each team once, in ascending order. Fails on a bundle that
/// does not decode, and otherwise with the error of the first certificate
/// whose team cannot be read.
pub fn find_development_teams(pem: &[u8]) -> (r: Result<Vec<Team>, FindTeamsError>)
    requires
        pem@.len() <= i32::MAX,
    ensures
        (r matches Err(FindTeamsError::ParseX509Error(_))) <==> pem_subjects(pem@) is None,
        pem_subjects(pem@) matches Some(subs) ==> {
            &&& (forall|i: int| 0 <= i < subs.len() ==> #[trigger] team_of(subs[i]) is Some) ==> (
            r matches Ok(teams) && collected(
                subs.map_values(|s: (EntryView, EntryView)| team_of(s)->0),
                keys(teams@),
            ))
            &&& forall|k: int|
                0 <= k < subs.len() && team_of(#[trigger] subs[k]) is None && (forall|j: int|
                    0 <= j < k ==> #[trigger] team_of(subs[j]) is Some) ==> (r matches Err(e)
                    && subject_error(subs[k], e))
        },
        pem_subjects(pem@) == Some(Seq::<(EntryView, EntryView)>::empty()) ==> (r matches Ok(
            teams,
        ) && teams@.len() == 0),
{
    let mut rest = match subjects_from_pem(pem) {
        Ok(subjects) => subjects,
        Err(e) => return Err(FindTeamsError::ParseX509Error(e)),
    };
    let ghost subs = rest@.map_values(|s: Subject| subject_view(s));
    let total: usize = rest.len();
    let ghost n = total as int;
    let mut found: Vec<Team> = Vec::new();
    let mut i: usize = 0;
    proof {
        assert(subs.skip(0) =~= subs);
    }
    while rest.len() > 0
        invariant
            pem_subjects(pem@) == Some(subs),
            n == subs.len(),
            n <= usize::MAX,
            i + rest@.len() == n,
            rest@.map_values(|s: Subject| subject_view(s)) == subs.skip(i as int),
            keys(found@) == subs.take(i as int).map_values(
                |s: (EntryView, EntryView)| team_of(s)->0,
            ),
            forall|j: int| 0 <= j < i ==> #[trigger] team_of(subs[j]) is Some,
        decreases rest@.len(),
    {
        let ghost before = rest@;
        let subject = rest.remove(0);
        proof {
            assert(subs[i as int] == subject_view(subject)) by {
                assert(subs.skip(i as int)[0] == before.map_values(|s: Subject| subject_view(s))[0]);
            }
            let bm = before.map_values(|s: Subject| subject_view(s));
            let rm = rest@.map_values(|s: Subject| subject_view(s));
            assert forall|k: int| 0 <= k < rest@.len() implies #[trigger] rm[k] == subs.skip(
                i + 1,
            )[k] by {
                assert(rest@[k] == before[k + 1]);
                assert(bm[k + 1] == subs.skip(i as int)[k + 1]);
            }
            assert(rest@.map_values(|s: Subject| subject_view(s)) =~= subs.skip(i + 1));
        }
        match Team::from_x509(subject) {
            Ok(team) => {
                let ghost old_keys = keys(found@);
                proof {
                    assert(team_of(subs[i as int]) is Some);
                    assert(team@ == team_of(subs[i as int])->0);
                }
                found.push(team);
                proof {
                    assert(keys(found@) =~= old_keys.push(team_of(subs[i as int])->0));
                    assert(keys(found@) =~= subs.take(i + 1).map_values(
                        |s: (EntryView, EntryView)| team_of(s)->0,
                    ));
                }
            },
            Err(e) => {
                return Err(e);
            },
        }
        i += 1;
    }
    proof {
        assert(subs.take(n as int) =~= subs);
    }
    let teams = collect_teams(found);
    proof {
        if n == 0 {
            keys(teams@).lemma_cardinality_of_empty_set_is_0();
            keys(found@).lemma_cardinality_of_empty_set_is_0();
        }
    }
    Ok(teams)
}

} // verus!
