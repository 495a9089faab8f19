//! Courses: a name, its abbreviation and the set of time codes of its classes.
use vstd::prelude::*;
use vstd::string::*;
use crate::abbreviation::abbreviation;
use crate::shorthand::{is_expandable, is_formatted_code, shorthand_times};
use crate::time::{
    Dia, SigaaTime, Turno, dia_at, dia_char, dia_index, insert_time, push_char, sorted_times,
    turno_at, turno_code, turno_digits, turno_index, turno_letter,
};

verus! {

/// A course: its name, the abbreviation derived from the name, and the time codes of its
/// classes, each once and in the order of the week.
#[derive(Debug)]
pub struct Disciplina {
    pub nome: String,
    pub abreviacao: String,
    pub sigaa_time: Vec<SigaaTime>,
}

/// The text a user gives for a new course: its name and its shorthand.
#[derive(Debug, Default, Clone)]
pub struct Data {
    pub nome: String,
    pub horario: String,
}

/// What a course is, as values: name, abbreviation and time codes.
pub type DisciplinaView = (Seq<char>, Seq<char>, Seq<SigaaTime>);

/// Why a course could not be built or changed.
#[derive(Debug, Clone, Copy, PartialEq, Eq, Structural)]
pub enum DisciplinaErrors {
    /// The time code is already one of the course's.
    TimeAlreadyInserted,
    /// The time string is not a shorthand of the form `[2-7]{1,5}[MTN][1-6]{2,6}` whose
    /// period digits pair up into periods of its shift.
    TimeNotFormatted,
}

impl View for Disciplina {
    type V = DisciplinaView;

    open spec fn view(&self) -> DisciplinaView {
        (self.nome@, self.abreviacao@, self.sigaa_time@)
    }
}

impl PartialEq for Disciplina {
    fn eq(&self, other: &Disciplina) -> (r: bool) {
        self.nome == other.nome && self.abreviacao == other.abreviacao && same_times(
            &self.sigaa_time,
            &other.sigaa_time,
        )
    }
}

impl vstd::std_specs::cmp::PartialEqSpecImpl for Disciplina {
    open spec fn obeys_eq_spec() -> bool {
        true
    }

    open spec fn eq_spec(&self, other: &Disciplina) -> bool {
        self@ == other@
    }
}

impl Clone for Disciplina {
    fn clone(&self) -> (r: Disciplina)
        ensures
            r@ == self@,
    {
        Disciplina {
            nome: self.nome.clone(),
            abreviacao: self.abreviacao.clone(),
            sigaa_time: copy_times(&self.sigaa_time),
        }
    }
}

/// Whether `a` and `b` list the same time codes in the same order.
fn same_times(a: &Vec<SigaaTime>, b: &Vec<SigaaTime>) -> (r: bool)
    ensures
        r == (a@ == b@),
{
    if a.len() != b.len() {
        return false;
    }
    let mut i: usize = 0;
    while i < a.len()
        invariant
            a@.len() == b@.len(),
            i <= a@.len(),
            forall|j: int| 0 <= j < i ==> a@[j] == b@[j],
        decreases a@.len() - i,
    {
        if a[i] != b[i] {
            return false;
        }
        i = i + 1;
    }
    assert(a@ =~= b@);
    true
}

/// A copy of the list `v`.
fn copy_times(v: &Vec<SigaaTime>) -> (r: Vec<SigaaTime>)
    ensures
        r@ == v@,
{
    let mut r: Vec<SigaaTime> = Vec::new();
    let mut i: usize = 0;
    while i < v.len()
        invariant
            i <= v@.len(),
            r@ == v@.subrange(0, i as int),
        decreases v@.len() - i,
    {
        r.push(v[i]);
        proof {
            assert(v@.subrange(0, i + 1) =~= v@.subrange(0, i as int).push(v@[i as int]));
        }
        i = i + 1;
    }
    assert(r@ =~= v@);
    r
}

impl Disciplina {
    /// The course keeps its time codes each once and in the order of the week.
    pub open spec fn wf(&self) -> bool {
        sorted_times(self.sigaa_time@)
    }

    /// The course named `nome` with the time codes of `sigaa_time` (in any order; a code
    /// given twice is kept once).
    pub fn new(nome: &str, sigaa_time: Vec<SigaaTime>) -> (r: Disciplina)
        ensures
            r.wf(),
            r.nome@ == nome@,
            r.abreviacao@ == abbreviation(nome@),
            r.sigaa_time@.to_set() == sigaa_time@.to_set(),
    {
        let mut times: Vec<SigaaTime> = Vec::new();
        let mut i: usize = 0;
        while i < sigaa_time.len()
            invariant
                i <= sigaa_time@.len(),
                sorted_times(times@),
                times@.to_set() == sigaa_time@.subrange(0, i as int).to_set(),
            decreases sigaa_time@.len() - i,
        {
            let ghost before = times@;
            insert_time(&mut times, sigaa_time[i]);
            proof {
                assert(sigaa_time@.subrange(0, i + 1) =~= sigaa_time@.subrange(0, i as int).push(
                    sigaa_time@[i as int],
                ));
                sigaa_time@.subrange(0, i as int).lemma_push_to_set_commute(sigaa_time@[i as int]);
                assert(times@.to_set() =~= before.to_set().insert(sigaa_time@[i as int]));
            }
            i = i + 1;
        }
        proof {
            assert(sigaa_time@.subrange(0, sigaa_time@.len() as int) =~= sigaa_time@);
        }
        Disciplina {
            nome: String::from_str(nome),
            abreviacao: crate::abbreviation::generate_abreviacao(nome),
            sigaa_time: times,
        }
    }

    /// The course named `nome` with the time codes of `sigaa_time`, the name given as an
    /// owned string.
    pub fn new_with_time(nome: String, sigaa_time: Vec<SigaaTime>) -> (r: Disciplina)
        ensures
            r.wf(),
            r.nome@ == nome@,
            r.abreviacao@ == abbreviation(nome@),
            r.sigaa_time@.to_set() == sigaa_time@.to_set(),
    {
        Disciplina::new(nome.as_str(), sigaa_time)
    }

    /// The course named `nome` whose time codes are those of the shorthand `new_time`, e.g.
    /// `"246M12"`; `TimeNotFormatted` when `new_time` is no shorthand whose period digits
    /// pair up into periods of its shift.
    pub fn new_stringify(nome: &str, new_time: &str) -> (r: Result<Disciplina, DisciplinaErrors>)
        ensures
            r is Ok <==> is_expandable(new_time@),
            !is_formatted_code(new_time@) ==> r is Err,
            r matches Ok(d) ==> d.wf() && d.nome@ == nome@ && d.abreviacao@ == abbreviation(
                nome@,
            ) && d.sigaa_time@.to_set() == shorthand_times(new_time@),
            r matches Err(e) ==> e == DisciplinaErrors::TimeNotFormatted,
    {
        if !crate::shorthand::is_formatted(new_time) {
            return Err(DisciplinaErrors::TimeNotFormatted);
        }
        match crate::shorthand::try_expand(new_time) {
            Some(new_times) => Ok(
                Disciplina {
                    nome: String::from_str(nome),
                    abreviacao: crate::abbreviation::generate_abreviacao(nome),
                    sigaa_time: new_times,
                },
            ),
            None => Err(DisciplinaErrors::TimeNotFormatted),
        }
    }

    /// `new_stringify` with the name and the shorthand given as owned strings.
    pub fn new_with_time_string(nome: String, new_time: String) -> (r: Result<
        Disciplina,
        DisciplinaErrors,
    >)
        ensures
            r is Ok <==> is_expandable(new_time@),
            r matches Ok(d) ==> d.wf() && d.nome@ == nome@ && d.abreviacao@ == abbreviation(
                nome@,
            ) && d.sigaa_time@.to_set() == shorthand_times(new_time@),
            r matches Err(e) ==> e == DisciplinaErrors::TimeNotFormatted,
    {
        Disciplina::new_stringify(nome.as_str(), new_time.as_str())
    }

    /// Adds the time code `new_time` to the course; `TimeAlreadyInserted`, with the course
    /// left as it was, when it is one of its codes already.
    pub fn add_time(&mut self, new_time: SigaaTime) -> (r: Result<(), DisciplinaErrors>)
        requires
            old(self).wf(),
        ensures
            final(self).wf(),
            final(self).nome@ == old(self).nome@,
            final(self).abreviacao@ == old(self).abreviacao@,
            r is Ok <==> !old(self).sigaa_time@.contains(new_time),
            r is Ok ==> final(self).sigaa_time@.to_set() == old(self).sigaa_time@.to_set().insert(
                new_time,
            ),
            r matches Err(e) ==> e == DisciplinaErrors::TimeAlreadyInserted && final(self)@ == old(
                self,
            )@,
    {
        let ghost before = self.sigaa_time@;
        if insert_time(&mut self.sigaa_time, new_time) {
            proof {
                assert(self.sigaa_time@.to_set() =~= before.to_set().insert(new_time));
            }
            Ok(())
        } else {
            Err(DisciplinaErrors::TimeAlreadyInserted)
        }
    }
}

/// Some time code of `ts` falls on the day of position `d`.
pub open spec fn has_day(ts: Seq<SigaaTime>, d: int) -> bool {
    exists|i: int| 0 <= i < ts.len() && dia_index(#[trigger] ts[i].dia) == d
}

/// Some time code of `ts` is in the shift of rank `t`.
pub open spec fn has_turno(ts: Seq<SigaaTime>, t: int) -> bool {
    exists|i: int| 0 <= i < ts.len() && turno_index(#[trigger] ts[i].turno) == t
}

/// The digits of the days of positions below `n` that `ts` uses, in order.
pub open spec fn day_digits(ts: Seq<SigaaTime>, n: int) -> Seq<char>
    decreases n,
{
    if n <= 0 {
        seq![]
    } else {
        let p = day_digits(ts, n - 1);
        if has_day(ts, n - 1) {
            p.push(dia_char(dia_at(n - 1)))
        } else {
            p
        }
    }
}

/// The shifts of ranks below `n` that `ts` uses, in order: the first written in full
/// (`M12`), each other by its period digits alone (`34`).
pub open spec fn shift_codes(ts: Seq<SigaaTime>, n: int) -> Seq<char>
    decreases n,
{
    if n <= 0 {
        seq![]
    } else {
        let p = shift_codes(ts, n - 1);
        if has_turno(ts, n - 1) {
            let t = turno_at(n - 1);
            if p.len() == 0 {
                turno_code(t)
            } else {
                p + seq![turno_digits(t).0, turno_digits(t).1]
            }
        } else {
            p
        }
    }
}

/// The compact display of a list of time codes: its days, then its shifts, e.g. `24M1234`.
pub open spec fn horario_display(ts: Seq<SigaaTime>) -> Seq<char> {
    day_digits(ts, 6) + shift_codes(ts, 8)
}

/// Whether some time code of `ts` falls on the day of position `d`.
fn uses_day(ts: &Vec<SigaaTime>, d: usize) -> (r: bool)
    ensures
        r == has_day(ts@, d as int),
{
    let mut i: usize = 0;
    while i < ts.len()
        invariant
            i <= ts@.len(),
            forall|j: int| 0 <= j < i ==> dia_index(#[trigger] ts@[j].dia) != d,
        decreases ts@.len() - i,
    {
        if ts[i].dia.index() == d {
            return true;
        }
        i = i + 1;
    }
    false
}

/// Whether some time code of `ts` is in the shift of rank `t`.
fn uses_turno(ts: &Vec<SigaaTime>, t: usize) -> (r: bool)
    ensures
        r == has_turno(ts@, t as int),
{
    let mut i: usize = 0;
    while i < ts.len()
        invariant
            i <= ts@.len(),
            forall|j: int| 0 <= j < i ==> turno_index(#[trigger] ts@[j].turno) != t,
        decreases ts@.len() - i,
    {
        if ts[i].turno.index() == t {
            return true;
        }
        i = i + 1;
    }
    false
}

/// The compact display of the times of a course: the digits of the days it meets on, in
/// order, then the first of its shifts in full and each further shift by its period
/// digits, e.g. `246T12` or `24M1234`.
pub fn generate_horario_display(disciplina: &Disciplina) -> (r: String)
    ensures
        r@ == horario_display(disciplina.sigaa_time@),
{
    let ts = &disciplina.sigaa_time;
    let mut output = String::new();
    let mut d: usize = 0;
    while d < 6
        invariant
            d <= 6,
            output@ == day_digits(ts@, d as int),
        decreases 6 - d,
    {
        if uses_day(ts, d) {
            match Dia::from_index(d) {
                Ok(dia) => push_char(&mut output, dia.to_char()),
                Err(_) => {},
            }
        }
        d = d + 1;
    }
    let ghost days = output@;
    let mut any = false;
    let mut t: usize = 0;
    while t < 8
        invariant
            t <= 8,
            days == day_digits(ts@, 6),
            output@ == days + shift_codes(ts@, t as int),
            any == (shift_codes(ts@, t as int).len() > 0),
        decreases 8 - t,
    {
        if uses_turno(ts, t) {
            match Turno::from_index(t) {
                Ok(turno) => {
                    let (a, b) = turno.digits();
                    if !any {
                        push_char(&mut output, turno.letter());
                    }
                    push_char(&mut output, a);
                    push_char(&mut output, b);
                    any = true;
                    proof {
                        let p = shift_codes(ts@, t as int);
                        if p.len() == 0 {
                            assert(days + turno_code(turno) =~= days.push(turno_letter(turno)).push(
                                a,
                            ).push(b));
                        } else {
                            assert(days + (p + seq![a, b]) =~= (days + p).push(a).push(b));
                        }
                    }
                },
                Err(_) => {},
            }
        }
        t = t + 1;
    }
    output
}

impl Disciplina {
    /// The abbreviation of a course name; see `abbreviation::generate_abreviacao`.
    pub fn generate_abreviacao(nome: &str) -> (r: String)
        ensures
            r@ == abbreviation(nome@),
    {
        crate::abbreviation::generate_abreviacao(nome)
    }

    /// Whether `time` is a well-formed shorthand; see `shorthand::is_formatted`.
    pub fn is_formatted(time: &str) -> (r: bool)
        ensures
            r == is_formatted_code(time@),
    {
        crate::shorthand::is_formatted(time)
    }

    /// The time codes of a shorthand, in order; see
    /// `shorthand::valid_string_to_vec_sigaa_times`.
    pub fn valid_string_to_vec_sigaa_times(valid_string: &str) -> (r: Vec<SigaaTime>)
        requires
            is_expandable(valid_string@),
        ensures
            sorted_times(r@),
            r@.to_set() == shorthand_times(valid_string@),
    {
        crate::shorthand::valid_string_to_vec_sigaa_times(valid_string)
    }

    /// The compact display of the course's times, e.g. `246T12`.
    pub fn generate_horario_display(&self) -> (r: String)
        ensures
            r@ == horario_display(self.sigaa_time@),
    {
        generate_horario_display(self)
    }

    /// The course as text: `"{nome} - {abreviacao} - {horario}"`.
    pub fn to_string(&self) -> (r: String)
        ensures
            r@ == self.nome@ + " - "@ + self.abreviacao@ + " - "@ + horario_display(
                self.sigaa_time@,
            ),
    {
        let mut r = self.nome.clone();
        r.append(" - ");
        r.append(self.abreviacao.as_str());
        r.append(" - ");
        let horario = generate_horario_display(self);
        r.append(horario.as_str());
        r
    }
}

/// The hours a weekly slot counts for over a term.
pub const HOURS_PER_SLOT: usize = 30;

/// The number of weekly slots of the courses of `ds`, all together.
pub open spec fn total_slots(ds: Seq<Disciplina>) -> int
    decreases ds.len(),
{
    if ds.len() == 0 {
        0
    } else {
        total_slots(ds.drop_last()) + ds.last().sigaa_time@.len()
    }
}

/// The slots of a prefix of a list of courses are no more than those of the whole list.
proof fn lemma_total_slots_prefix(ds: Seq<Disciplina>, i: int)
    requires
        0 <= i <= ds.len(),
    ensures
        0 <= total_slots(ds.subrange(0, i)) <= total_slots(ds),
    decreases ds.len(),
{
    if i < ds.len() {
        assert(ds.drop_last() =~= ds.subrange(0, ds.len() - 1));
        lemma_total_slots_prefix(ds.drop_last(), i);
        assert(ds.drop_last().subrange(0, i) =~= ds.subrange(0, i));
    } else {
        assert(ds.subrange(0, i) =~= ds);
        if ds.len() > 0 {
            lemma_total_slots_prefix(ds.drop_last(), ds.len() - 1);
            assert(ds.drop_last().subrange(0, ds.len() - 1) =~= ds.drop_last());
        }
    }
}

/// The hours of a list of courses: `HOURS_PER_SLOT` for each weekly slot of each course.
pub fn calculate_total_hours(disciplinas: &Vec<Disciplina>) -> (r: usize)
    requires
        HOURS_PER_SLOT * total_slots(disciplinas@) <= usize::MAX,
    ensures
        r == HOURS_PER_SLOT * total_slots(disciplinas@),
{
    let ghost ds = disciplinas@;
    let mut output: usize = 0;
    let mut i: usize = 0;
    while i < disciplinas.len()
        invariant
            ds == disciplinas@,
            i <= ds.len(),
            HOURS_PER_SLOT * total_slots(ds) <= usize::MAX,
            output == HOURS_PER_SLOT * total_slots(ds.subrange(0, i as int)),
        decreases ds.len() - i,
    {
        proof {
            assert(ds.subrange(0, i + 1).drop_last() =~= ds.subrange(0, i as int));
            lemma_total_slots_prefix(ds, i + 1);
            assert(HOURS_PER_SLOT * total_slots(ds.subrange(0, i + 1)) <= HOURS_PER_SLOT
                * total_slots(ds)) by (nonlinear_arith)
                requires
                    total_slots(ds.subrange(0, i + 1)) <= total_slots(ds),
            ;
        }
        output = output + disciplinas[i].sigaa_time.len() * HOURS_PER_SLOT;
        i = i + 1;
    }
    proof {
        assert(ds.subrange(0, ds.len() as int) =~= ds);
    }
    output
}

} // verus!
