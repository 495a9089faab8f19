//! The weekly grid: eight shifts by six days, each slot holding at most one course.
use vstd::prelude::*;
use crate::disciplina::{Disciplina, DisciplinaView};
use crate::time::{
    Dia, SigaaTime, SigaaTimeErrors, Turno, dia_at, dia_index, time_code, turno_at, turno_index,
};

verus! {

/// One slot of the grid: its time code and the course in it, if any.
#[derive(Debug, Clone, PartialEq)]
pub struct ScheduleUnity {
    pub horario: SigaaTime,
    pub disciplina: Option<Disciplina>,
}

/// The weekly grid: row `r` holds the shift of rank `r`, column `c` the day of position `c`.
pub struct Schedule(Vec<Vec<ScheduleUnity>>);

/// Why a course could not be put in or taken out of the grid.
#[derive(Debug, PartialEq)]
pub enum ScheduleError {
    /// The first course met in the slots, and the course that was to go in or out.
    ConflictingDisciplines(Disciplina, Disciplina),
    /// A time code with no slot in the grid.
    TimeNotFound(SigaaTime),
    /// A time code that could not be built.
    SigaaTimeErrors(SigaaTimeErrors),
    /// None of the course's slots holds a course.
    DisciplineNotFoundToRemove,
}

/// What the slots of a course hold: the first course met, or none.
#[derive(Debug, PartialEq)]
pub enum DisciplineWasFound {
    DisciplineFound(Disciplina),
    DisciplineNotFound,
}

/// The grid as values: the course in the slot of each time code.
pub type Grid = Map<SigaaTime, Option<DisciplinaView>>;

/// A course or none, as a value.
pub open spec fn course_of(o: Option<Disciplina>) -> Option<DisciplinaView> {
    match o {
        Some(d) => Some(d@),
        None => None,
    }
}

/// The course in a slot, as a value.
pub open spec fn unit_course(u: ScheduleUnity) -> Option<DisciplinaView> {
    course_of(u.disciplina)
}

/// The time code of the slot in row `r` and column `c`.
pub open spec fn time_at(r: int, c: int) -> SigaaTime {
    SigaaTime { dia: dia_at(c), turno: turno_at(r) }
}

/// The course in the first slot, in the order of `ts`, that holds one.
pub open spec fn first_occupant(g: Grid, ts: Seq<SigaaTime>) -> Option<DisciplinaView>
    decreases ts.len(),
{
    if ts.len() == 0 {
        None
    } else if g[ts[0]] is Some {
        g[ts[0]]
    } else {
        first_occupant(g, ts.drop_first())
    }
}

/// `g` with the slots of `ts` set to `v`.
pub open spec fn with_course(g: Grid, ts: Seq<SigaaTime>, v: Option<DisciplinaView>) -> Grid {
    Map::new(
        |t: SigaaTime| true,
        |t: SigaaTime|
            if ts.contains(t) {
                v
            } else {
                g[t]
            },
    )
}

/// The grid after putting in course `c`: its slots hold it when they were all free;
/// otherwise nothing changes.
pub open spec fn after_insert(g: Grid, c: DisciplinaView) -> Grid {
    if first_occupant(g, c.2) is None {
        with_course(g, c.2, Some(c))
    } else {
        g
    }
}

/// The grid after taking out course `c`: its slots are freed when the first course met in
/// them is `c`; otherwise nothing changes.
pub open spec fn after_remove(g: Grid, c: DisciplinaView) -> Grid {
    if first_occupant(g, c.2) == Some(c) {
        with_course(g, c.2, None)
    } else {
        g
    }
}

/// A grid has a slot for every time code.
pub open spec fn is_total(g: Grid) -> bool {
    forall|t: SigaaTime| #[trigger] g.dom().contains(t)
}

/// No course is met in the slots of `ts` exactly when all of them are free.
pub proof fn lemma_first_occupant_none(g: Grid, ts: Seq<SigaaTime>)
    ensures
        first_occupant(g, ts) is None <==> forall|i: int| 0 <= i < ts.len() ==> #[trigger] g[ts[i]] is None,
    decreases ts.len(),
{
    if ts.len() > 0 {
        lemma_first_occupant_none(g, ts.drop_first());
        assert forall|i: int| 0 <= i < ts.len() && g[ts[0]] is None && first_occupant(
            g,
            ts.drop_first(),
        ) is None implies #[trigger] g[ts[i]] is None by {
            if i > 0 {
                assert(g[ts.drop_first()[i - 1]] is None);
            }
        }
        assert forall|i: int| 0 <= i < ts.len() - 1 && (forall|j: int| 0 <= j < ts.len() ==> #[trigger] g[ts[j]] is None) implies #[trigger] g[ts.drop_first()[i]] is None by {
            assert(g[ts[i + 1]] is None);
        }
    }
}

/// The course met first in the slots of `ts` is in one of them.
pub proof fn lemma_first_occupant_some(g: Grid, ts: Seq<SigaaTime>)
    requires
        first_occupant(g, ts) is Some,
    ensures
        exists|i: int| 0 <= i < ts.len() && g[ts[i]] == first_occupant(g, ts),
    decreases ts.len(),
{
    if g[ts[0]] is None {
        lemma_first_occupant_some(g, ts.drop_first());
        let i = choose|i: int|
            0 <= i < ts.drop_first().len() && g[ts.drop_first()[i]] == first_occupant(
                g,
                ts.drop_first(),
            );
        assert(g[ts[i + 1]] == first_occupant(g, ts));
    } else {
        assert(g[ts[0]] == first_occupant(g, ts));
    }
}

/// Course `c`, found in the slot of `t`, is there by one of its times, and in the slots of
/// all of them.
pub open spec fn placed_at(g: Grid, t: SigaaTime, c: DisciplinaView) -> bool {
    c.2.contains(t) && forall|i: int| 0 <= i < c.2.len() ==> g[#[trigger] c.2[i]] == Some(c)
}

/// Every course in the grid is in the slots of its own times, and in all of them.
pub open spec fn consistent(g: Grid) -> bool {
    forall|t: SigaaTime| #[trigger] g[t] is Some ==> placed_at(g, t, g[t]->Some_0)
}

/// When each slot of `ts` is free or holds `v`, and one holds it, `v` is the course met
/// first.
proof fn lemma_first_occupant_uniform(g: Grid, ts: Seq<SigaaTime>, v: DisciplinaView, j: int)
    requires
        forall|i: int| 0 <= i < ts.len() ==> #[trigger] g[ts[i]] is None || g[ts[i]] == Some(v),
        0 <= j < ts.len(),
        g[ts[j]] == Some(v),
    ensures
        first_occupant(g, ts) == Some(v),
{
    lemma_first_occupant_none(g, ts);
    lemma_first_occupant_some(g, ts);
}

/// Putting a course in keeps every course in exactly the slots of its times.
pub proof fn lemma_insert_keeps_consistent(g: Grid, c: DisciplinaView)
    requires
        is_total(g),
        consistent(g),
    ensures
        consistent(after_insert(g, c)),
{
    if first_occupant(g, c.2) is None {
        lemma_first_occupant_none(g, c.2);
        let g2 = after_insert(g, c);
        assert forall|t: SigaaTime| #[trigger] g2[t] is Some implies placed_at(
            g2,
            t,
            g2[t]->Some_0,
        ) by {
            let x = g2[t]->Some_0;
            if !c.2.contains(t) {
                assert(g[t] == Some(x));
                assert forall|i: int| 0 <= i < x.2.len() implies g2[#[trigger] x.2[i]] == Some(x) by {
                    assert(g[x.2[i]] == Some(x));
                    if c.2.contains(x.2[i]) {
                        let k = choose|k: int| 0 <= k < c.2.len() && c.2[k] == x.2[i];
                        assert(g[c.2[k]] is None);
                    }
                }
            }
        }
    }
}

/// Taking a course out keeps every course in exactly the slots of its times.
pub proof fn lemma_remove_keeps_consistent(g: Grid, c: DisciplinaView)
    requires
        is_total(g),
        consistent(g),
    ensures
        consistent(after_remove(g, c)),
{
    if first_occupant(g, c.2) == Some(c) {
        lemma_first_occupant_some(g, c.2);
        let k = choose|k: int| 0 <= k < c.2.len() && g[c.2[k]] == first_occupant(g, c.2);
        assert(g[c.2[k]] == Some(c));
        let g2 = after_remove(g, c);
        assert forall|t: SigaaTime| #[trigger] g2[t] is Some implies placed_at(
            g2,
            t,
            g2[t]->Some_0,
        ) by {
            let x = g2[t]->Some_0;
            assert(!c.2.contains(t));
            assert(g[t] == Some(x));
            assert forall|i: int| 0 <= i < x.2.len() implies g2[#[trigger] x.2[i]] == Some(x) by {
                assert(g[x.2[i]] == Some(x));
                if c.2.contains(x.2[i]) {
                    let m = choose|m: int| 0 <= m < c.2.len() && c.2[m] == x.2[i];
                    assert(g[c.2[m]] == Some(c));
                }
            }
        }
    }
}

/// Once a course with times is put in, each of its slots holds it, and it is the course
/// met first in them.
pub proof fn lemma_found_after_insert(g: Grid, c: DisciplinaView)
    requires
        is_total(g),
        first_occupant(g, c.2) is None,
        c.2.len() > 0,
    ensures
        forall|i: int| 0 <= i < c.2.len() ==> #[trigger] after_insert(g, c)[c.2[i]] == Some(c),
        first_occupant(after_insert(g, c), c.2) == Some(c),
{
    let g2 = after_insert(g, c);
    assert forall|i: int| 0 <= i < c.2.len() implies #[trigger] g2[c.2[i]] == Some(c) by {
        assert(c.2.contains(c.2[i]));
    }
    lemma_first_occupant_uniform(g2, c.2, c, 0);
}

/// Putting a course in and then taking it out gives back the grid it was put in.
pub proof fn lemma_insert_then_remove(g: Grid, c: DisciplinaView)
    requires
        is_total(g),
        first_occupant(g, c.2) is None,
    ensures
        after_remove(after_insert(g, c), c) == g,
{
    lemma_first_occupant_none(g, c.2);
    let g1 = after_insert(g, c);
    if c.2.len() > 0 {
        lemma_found_after_insert(g, c);
        assert(after_remove(g1, c) =~= g) by {
            assert forall|t: SigaaTime| #[trigger] after_remove(g1, c)[t] == g[t] by {
                if c.2.contains(t) {
                    let k = choose|k: int| 0 <= k < c.2.len() && c.2[k] == t;
                    assert(g[c.2[k]] is None);
                }
            }
        }
    } else {
        assert(g1 =~= g);
    }
}

/// Taking out a course none of whose slots holds a course meets no course, and leaves the
/// grid as it was.
pub proof fn lemma_remove_absent(g: Grid, c: DisciplinaView)
    requires
        forall|i: int| 0 <= i < c.2.len() ==> #[trigger] g[c.2[i]] is None,
    ensures
        first_occupant(g, c.2) is None,
        after_remove(g, c) == g,
{
    lemma_first_occupant_none(g, c.2);
}

/// A course that shares a time with one just put in, on a grid whose other slots of its
/// times are free, meets that course first, is not put in, and is in no slot after.
pub proof fn lemma_conflict(g: Grid, c1: DisciplinaView, c2: DisciplinaView, t: SigaaTime)
    requires
        is_total(g),
        first_occupant(g, c1.2) is None,
        forall|i: int| 0 <= i < c2.2.len() ==> #[trigger] g[c2.2[i]] is None,
        c1.2.contains(t),
        c2.2.contains(t),
    ensures
        first_occupant(after_insert(g, c1), c2.2) == Some(c1),
        after_insert(after_insert(g, c1), c2) == after_insert(g, c1),
        c2 != c1 && (forall|x: SigaaTime| #[trigger] g[x] != Some(c2)) ==> forall|x: SigaaTime|
            #[trigger] after_insert(g, c1)[x] != Some(c2),
{
    let g1 = after_insert(g, c1);
    let j = choose|j: int| 0 <= j < c2.2.len() && c2.2[j] == t;
    assert forall|i: int| 0 <= i < c2.2.len() implies #[trigger] g1[c2.2[i]] is None || g1[c2.2[i]]
        == Some(c1) by {
        assert(g[c2.2[i]] is None);
    }
    lemma_first_occupant_uniform(g1, c2.2, c1, j);
}

impl ScheduleUnity {
    /// The slot of time `horario`, holding `disciplina`.
    pub fn new(horario: SigaaTime, disciplina: Option<Disciplina>) -> (r: ScheduleUnity)
        ensures
            r.horario == horario,
            r.disciplina == disciplina,
    {
        ScheduleUnity { horario, disciplina }
    }

    /// A free slot at Monday's first morning period, `2M12`.
    pub fn default() -> (r: ScheduleUnity)
        ensures
            time_code(r.horario) == seq!['2', 'M', '1', '2'],
            r.disciplina is None,
    {
        let r = ScheduleUnity {
            horario: SigaaTime::new(
                Dia::Segunda,
                Turno::Manha(crate::time::HorarioDiurno::Primeiro),
            ),
            disciplina: None,
        };
        assert(time_code(r.horario) =~= seq!['2', 'M', '1', '2']);
        r
    }

    /// Puts `disciplina` in the slot, in place of what it held.
    pub fn update(&mut self, disciplina: Option<Disciplina>)
        ensures
            final(self).horario == old(self).horario,
            final(self).disciplina == disciplina,
    {
        self.disciplina = disciplina
    }
}

/// The shift and the day of row `row` and column `col`.
fn usize_to_turno_dia(pair: (usize, usize)) -> (r: (Turno, Dia))
    requires
        pair.0 < 8,
        pair.1 < 6,
    ensures
        r == (turno_at(pair.0 as int), dia_at(pair.1 as int)),
{
    let (row, col) = pair;
    let turno = match Turno::from_index(row) {
        Ok(t) => t,
        Err(_) => Turno::Noite(crate::time::HorarioNoturno::Segundo),
    };
    let dia = match Dia::from_index(col) {
        Ok(d) => d,
        Err(_) => Dia::Sabado,
    };
    (turno, dia)
}

/// The free slot of a shift and a day.
fn create_schedule_unity(pair: (Turno, Dia)) -> (r: ScheduleUnity)
    ensures
        r.horario == (SigaaTime { dia: pair.1, turno: pair.0 }),
        r.disciplina is None,
{
    let (row, col) = pair;
    ScheduleUnity::new(SigaaTime::new(col, row), None)
}

/// The six free slots of row `row`, Monday to Saturday.
fn create_row(row: usize) -> (r: Vec<ScheduleUnity>)
    requires
        row < 8,
    ensures
        r@.len() == 6,
        forall|c: int| 0 <= c < 6 ==> (#[trigger] r@[c]).horario == time_at(row as int, c),
        forall|c: int| 0 <= c < 6 ==> (#[trigger] r@[c]).disciplina is None,
{
    let mut r: Vec<ScheduleUnity> = Vec::new();
    let mut col: usize = 0;
    while col < 6
        invariant
            row < 8,
            col <= 6,
            r@.len() == col,
            forall|c: int| 0 <= c < col ==> (#[trigger] r@[c]).horario == time_at(row as int, c),
            forall|c: int| 0 <= c < col ==> (#[trigger] r@[c]).disciplina is None,
        decreases 6 - col,
    {
        r.push(create_schedule_unity(usize_to_turno_dia((row, col))));
        col = col + 1;
    }
    r
}

/// A copy of a row of slots.
fn clone_row(row: &Vec<ScheduleUnity>) -> (r: Vec<ScheduleUnity>)
    ensures
        r@.len() == row@.len(),
        forall|c: int| 0 <= c < row@.len() ==> (#[trigger] r@[c]).horario == row@[c].horario
            && unit_course(r@[c]) == unit_course(row@[c]),
{
    let mut r: Vec<ScheduleUnity> = Vec::new();
    let mut i: usize = 0;
    while i < row.len()
        invariant
            i <= row@.len(),
            r@.len() == i,
            forall|c: int| 0 <= c < i ==> (#[trigger] r@[c]).horario == row@[c].horario
                && unit_course(r@[c]) == unit_course(row@[c]),
        decreases row@.len() - i,
    {
        let disciplina = match &row[i].disciplina {
            Some(d) => Some(d.clone()),
            None => None,
        };
        r.push(ScheduleUnity::new(row[i].horario, disciplina));
        i = i + 1;
    }
    r
}

impl View for Schedule {
    type V = Grid;

    closed spec fn view(&self) -> Grid {
        Map::new(
            |t: SigaaTime| true,
            |t: SigaaTime| unit_course(self.0@[turno_index(t.turno)]@[dia_index(t.dia)]),
        )
    }
}

impl Schedule {
    /// Eight rows of six slots, each holding the time code of its row and column.
    pub closed spec fn wf(&self) -> bool {
        &&& self.0@.len() == 8
        &&& forall|r: int| 0 <= r < 8 ==> (#[trigger] self.0@[r])@.len() == 6
        &&& forall|r: int, c: int|
            0 <= r < 8 && 0 <= c < 6 ==> (#[trigger] self.0@[r]@[c]).horario == time_at(r, c)
    }

    /// The slot in row `r` and column `c`.
    pub closed spec fn unit(&self, r: int, c: int) -> ScheduleUnity {
        self.0@[r]@[c]
    }

    /// A well-formed grid has a slot for every time code, and the slot in row `r`, column
    /// `c` is the one of `time_at(r, c)`.
    pub proof fn lemma_wf(&self)
        requires
            self.wf(),
        ensures
            is_total(self@),
            forall|r: int, c: int|
                0 <= r < 8 && 0 <= c < 6 ==> (#[trigger] self.unit(r, c)).horario == time_at(r, c)
                    && unit_course(self.unit(r, c)) == self@[time_at(r, c)],
    {
        assert forall|r: int, c: int| 0 <= r < 8 && 0 <= c < 6 implies unit_course(
            #[trigger] self.unit(r, c),
        ) == self@[time_at(r, c)] by {
            assert(turno_index(turno_at(r)) == r && dia_index(dia_at(c)) == c);
        }
    }

    /// The empty grid: every slot free.
    pub fn new() -> (r: Schedule)
        ensures
            r.wf(),
            is_total(r@),
            consistent(r@),
            forall|t: SigaaTime| #[trigger] r@[t] is None,
    {
        let mut rows: Vec<Vec<ScheduleUnity>> = Vec::new();
        let mut row: usize = 0;
        while row < 8
            invariant
                row <= 8,
                rows@.len() == row,
                forall|r: int| 0 <= r < row ==> (#[trigger] rows@[r])@.len() == 6,
                forall|r: int, c: int|
                    0 <= r < row && 0 <= c < 6 ==> (#[trigger] rows@[r]@[c]).horario == time_at(
                        r,
                        c,
                    ),
                forall|r: int, c: int|
                    0 <= r < row && 0 <= c < 6 ==> (#[trigger] rows@[r]@[c]).disciplina is None,
            decreases 8 - row,
        {
            rows.push(create_row(row));
            row = row + 1;
        }
        let r = Schedule(rows);
        proof {
            assert forall|t: SigaaTime| #[trigger] r@[t] is None by {
                assert(0 <= turno_index(t.turno) < 8 && 0 <= dia_index(t.dia) < 6);
            }
        }
        r
    }

    /// The number of rows and of columns of the grid: `(8, 6)`.
    pub fn len(&self) -> (r: (usize, usize))
        requires
            self.wf(),
        ensures
            r == (8usize, 6usize),
    {
        (self.0.len(), self.0[0].len())
    }

    /// The slot in row `row` (a shift rank) and column `col` (a day position), if there is
    /// one.
    pub fn get(&self, row: usize, col: usize) -> (r: Option<&ScheduleUnity>)
        requires
            self.wf(),
        ensures
            r is Some <==> row < 8 && col < 6,
            r matches Some(u) ==> u.horario == time_at(row as int, col as int) && unit_course(*u)
                == self@[time_at(row as int, col as int)],
    {
        if row < self.0.len() && col < self.0[row].len() {
            proof {
                self.lemma_wf();
                assert(self.unit(row as int, col as int) == self.0@[row as int]@[col as int]);
            }
            Some(&self.0[row][col])
        } else {
            None
        }
    }

    /// The slot of the time code `sigaa_time`.
    pub fn lookup(&self, sigaa_time: &SigaaTime) -> (r: &ScheduleUnity)
        requires
            self.wf(),
        ensures
            r.horario == *sigaa_time,
            unit_course(*r) == self@[*sigaa_time],
    {
        let row = sigaa_time.turno.index();
        let col = sigaa_time.dia.index();
        proof {
            self.lemma_wf();
            assert(self.unit(row as int, col as int) == self.0@[row as int]@[col as int]);
            assert(time_at(row as int, col as int) == *sigaa_time);
        }
        &self.0[row][col]
    }

    /// Puts `disciplina` in the slot of `sigaa_time`.
    fn set_slot(&mut self, sigaa_time: SigaaTime, disciplina: Option<Disciplina>)
        requires
            old(self).wf(),
        ensures
            final(self).wf(),
            final(self)@ == old(self)@.insert(sigaa_time, course_of(disciplina)),
    {
        let row = sigaa_time.turno.index();
        let col = sigaa_time.dia.index();
        let ghost before = self.0@;
        let ghost v = course_of(disciplina);
        let mut unit = ScheduleUnity::new(self.0[row][col].horario, None);
        unit.update(disciplina);
        let mut line = clone_row(&self.0[row]);
        line.set(col, unit);
        self.0.set(row, line);
        proof {
            assert forall|r: int| 0 <= r < 8 implies (#[trigger] self.0@[r])@.len() == 6 by {
                if r != row {
                    assert(self.0@[r] == before[r]);
                }
            }
            assert forall|r: int, c: int| 0 <= r < 8 && 0 <= c < 6 implies (
            #[trigger] self.0@[r]@[c]).horario == time_at(r, c) by {
                if r != row {
                    assert(self.0@[r] == before[r]);
                }
            }
            assert(self@ =~= old(self)@.insert(sigaa_time, v)) by {
                assert forall|t: SigaaTime| #[trigger] self@[t] == old(self)@.insert(sigaa_time, v)[t] by {
                    if turno_index(t.turno) != row {
                        assert(self.0@[turno_index(t.turno)] == before[turno_index(t.turno)]);
                    } else if dia_index(t.dia) != col {
                        assert(t != sigaa_time);
                    } else {
                        crate::time::lemma_time_key_injective(t, sigaa_time);
                    }
                }
            }
        }
    }

    /// Puts `insert_discipline` in each slot of the times of `disciplina`.
    fn update_discipline(&mut self, disciplina: &Disciplina, insert_discipline: Option<Disciplina>)
        requires
            old(self).wf(),
        ensures
            final(self).wf(),
            final(self)@ == with_course(
                old(self)@,
                disciplina.sigaa_time@,
                course_of(insert_discipline),
            ),
    {
        let ghost v = course_of(insert_discipline);
        let ghost g0 = self@;
        let ghost ts = disciplina.sigaa_time@;
        proof {
            self.lemma_wf();
            assert(g0 =~= with_course(g0, ts.subrange(0, 0), v));
        }
        let mut i: usize = 0;
        while i < disciplina.sigaa_time.len()
            invariant
                self.wf(),
                ts == disciplina.sigaa_time@,
                is_total(g0),
                i <= ts.len(),
                v == course_of(insert_discipline),
                self@ == with_course(g0, ts.subrange(0, i as int), v),
            decreases ts.len() - i,
        {
            let copy = match &insert_discipline {
                Some(d) => Some(d.clone()),
                None => None,
            };
            let ghost before = self@;
            self.set_slot(disciplina.sigaa_time[i], copy);
            proof {
                let prev = ts.subrange(0, i as int);
                let next = ts.subrange(0, i + 1);
                assert(next =~= prev.push(ts[i as int]));
                assert(self@ =~= with_course(g0, next, v)) by {
                    assert forall|t: SigaaTime| #[trigger] self@[t] == with_course(g0, next, v)[t] by {
                        if t == ts[i as int] {
                            assert(next[i as int] == t);
                        } else if prev.contains(t) {
                            let j = choose|j: int| 0 <= j < prev.len() && #[trigger] prev[j] == t;
                            assert(next[j] == t);
                        } else if next.contains(t) {
                            let j = choose|j: int| 0 <= j < next.len() && #[trigger] next[j] == t;
                            assert(prev[j] == t);
                        }
                    }
                }
            }
            i = i + 1;
        }
        proof {
            assert(ts.subrange(0, ts.len() as int) =~= ts);
        }
    }

    /// The course in the first slot, in the order of the times of `disciplina`, that holds
    /// one; `DisciplineNotFound` when all of them are free.
    pub fn verify_availability(&self, disciplina: &Disciplina) -> (r: DisciplineWasFound)
        requires
            self.wf(),
        ensures
            match r {
                DisciplineWasFound::DisciplineFound(d) => first_occupant(
                    self@,
                    disciplina.sigaa_time@,
                ) == Some(d@),
                DisciplineWasFound::DisciplineNotFound => first_occupant(
                    self@,
                    disciplina.sigaa_time@,
                ) is None,
            },
    {
        let ghost ts = disciplina.sigaa_time@;
        let mut i: usize = 0;
        proof {
            assert(ts.subrange(0, ts.len() as int) =~= ts);
        }
        while i < disciplina.sigaa_time.len()
            invariant
                self.wf(),
                ts == disciplina.sigaa_time@,
                i <= ts.len(),
                first_occupant(self@, ts) == first_occupant(self@, ts.subrange(i as int, ts.len() as int)),
            decreases ts.len() - i,
        {
            let slot = self.lookup(&disciplina.sigaa_time[i]);
            proof {
                let rest = ts.subrange(i as int, ts.len() as int);
                assert(rest[0] == ts[i as int]);
                assert(rest.drop_first() =~= ts.subrange(i + 1, ts.len() as int));
            }
            match &slot.disciplina {
                Some(disciplina_ocupada) => {
                    return DisciplineWasFound::DisciplineFound(disciplina_ocupada.clone());
                },
                None => {},
            }
            i = i + 1;
        }
        DisciplineWasFound::DisciplineNotFound
    }

    /// Puts `disciplina` in the slots of all its times when they are all free; otherwise
    /// leaves the grid as it was and gives `ConflictingDisciplines` with the first course met
    /// in them.
    pub fn insert(&mut self, disciplina: Disciplina) -> (r: Result<(), ScheduleError>)
        requires
            old(self).wf(),
        ensures
            final(self).wf(),
            final(self)@ == after_insert(old(self)@, disciplina@),
            r is Ok <==> first_occupant(old(self)@, disciplina.sigaa_time@) is None,
            r matches Err(e) ==> e matches ScheduleError::ConflictingDisciplines(a, b) && Some(a@)
                == first_occupant(old(self)@, disciplina.sigaa_time@) && b@ == disciplina@,
    {
        match self.verify_availability(&disciplina) {
            DisciplineWasFound::DisciplineNotFound => {
                let copy = disciplina.clone();
                self.update_discipline(&disciplina, Some(copy));
                Ok(())
            },
            DisciplineWasFound::DisciplineFound(found_discipline) => Err(
                ScheduleError::ConflictingDisciplines(found_discipline, disciplina),
            ),
        }
    }

    /// Frees the slots of all the times of `disciplina` when the first course met in them
    /// is `disciplina`; otherwise leaves the grid as it was and gives
    /// `ConflictingDisciplines` with the course met, or `DisciplineNotFoundToRemove` when
    /// the slots are all free.
    pub fn remove(&mut self, disciplina: Disciplina) -> (r: Result<(), ScheduleError>)
        requires
            old(self).wf(),
        ensures
            final(self).wf(),
            final(self)@ == after_remove(old(self)@, disciplina@),
            r is Ok <==> first_occupant(old(self)@, disciplina.sigaa_time@) == Some(disciplina@),
            r matches Err(e) ==> match first_occupant(old(self)@, disciplina.sigaa_time@) {
                None => e is DisciplineNotFoundToRemove,
                Some(f) => e matches ScheduleError::ConflictingDisciplines(a, b) && a@ == f && b@
                    == disciplina@,
            },
    {
        match self.verify_availability(&disciplina) {
            DisciplineWasFound::DisciplineFound(founded_discipline) => {
                if founded_discipline == disciplina {
                    self.update_discipline(&disciplina, None);
                    Ok(())
                } else {
                    Err(ScheduleError::ConflictingDisciplines(founded_discipline, disciplina))
                }
            },
            DisciplineWasFound::DisciplineNotFound => Err(
                ScheduleError::DisciplineNotFoundToRemove,
            ),
        }
    }

    /// The slot of the time code written in `input`, e.g. `"2M12"`; `None` when `input`
    /// writes no time code.
    pub fn get_from_str(&self, input: &str) -> (r: Option<&ScheduleUnity>)
        requires
            self.wf(),
        ensures
            r is Some <==> exists|t: SigaaTime| time_code(t) == input@,
            r matches Some(u) ==> time_code(u.horario) == input@ && unit_course(*u) == self@[u.horario],
    {
        match SigaaTime::parse(input) {
            Ok(sigaa_time) => Some(self.lookup(&sigaa_time)),
            Err(_) => None,
        }
    }
}

impl Default for Schedule {
    fn default() -> (r: Schedule)
        ensures
            r.wf(),
            forall|t: SigaaTime| #[trigger] r@[t] is None,
    {
        Schedule::new()
    }
}

} // verus!
