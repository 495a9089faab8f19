//! Days, shifts and the atomic time code `(day, shift)` of the timetable.
use vstd::prelude::*;
use vstd::string::*;
use crate::shorthand::{matches_pattern, pattern_at, pattern_digit, shorthand_captures};

verus! {

/// Weekday of a class, Monday to Saturday, written `2` to `7`.
#[derive(Debug, Clone, Copy, PartialEq, Eq, Structural, PartialOrd, Ord, Hash)]
pub enum Dia {
    Segunda,
    Terca,
    Quarta,
    Quinta,
    Sexta,
    Sabado,
}

/// One of the three daytime periods, written `12`, `34` and `56`.
#[derive(Debug, Clone, Copy, PartialEq, Eq, Structural, PartialOrd, Ord, Hash)]
pub enum HorarioDiurno {
    Primeiro,
    Segundo,
    Terceiro,
}

/// One of the two night periods, written `12` and `34`.
#[derive(Debug, Clone, Copy, PartialEq, Eq, Structural, PartialOrd, Ord, Hash)]
pub enum HorarioNoturno {
    Primeiro,
    Segundo,
}

/// Shift of a class: morning (`M`), afternoon (`T`) or night (`N`), with its period.
#[derive(Debug, Clone, Copy, PartialEq, Eq, Structural, PartialOrd, Ord, Hash)]
pub enum Turno {
    Manha(HorarioDiurno),
    Tarde(HorarioDiurno),
    Noite(HorarioNoturno),
}

/// One atomic slot of the week, written e.g. `3T34`.
#[derive(Debug, Clone, Copy, PartialEq, Eq, Structural, PartialOrd, Ord, Hash)]
pub struct SigaaTime {
    pub dia: Dia,
    pub turno: Turno,
}

/// Why a day, a shift or a time code could not be built.
#[derive(Debug, Clone, Copy, PartialEq, Eq, Structural)]
pub enum SigaaTimeErrors {
    InvalidUsizeToDay,
    InvalidStringToDay,
    InvalidUsizeToHorario,
    InvalidStringToTurno,
    InvalidStringToSigaaTime,
    InvalidStringToHorario,
}

/// Position of a day in the week, `0` for Monday.
pub open spec fn dia_index(d: Dia) -> int {
    match d {
        Dia::Segunda => 0,
        Dia::Terca => 1,
        Dia::Quarta => 2,
        Dia::Quinta => 3,
        Dia::Sexta => 4,
        Dia::Sabado => 5,
    }
}

/// The day at position `i` of the week (Saturday past the end).
pub open spec fn dia_at(i: int) -> Dia {
    if i <= 0 {
        Dia::Segunda
    } else if i == 1 {
        Dia::Terca
    } else if i == 2 {
        Dia::Quarta
    } else if i == 3 {
        Dia::Quinta
    } else if i == 4 {
        Dia::Sexta
    } else {
        Dia::Sabado
    }
}

/// The digit that writes a day.
pub open spec fn dia_char(d: Dia) -> char {
    match d {
        Dia::Segunda => '2',
        Dia::Terca => '3',
        Dia::Quarta => '4',
        Dia::Quinta => '5',
        Dia::Sexta => '6',
        Dia::Sabado => '7',
    }
}

/// A digit that writes a day.
pub open spec fn is_day_char(c: char) -> bool {
    '2' <= c && c <= '7'
}

/// The day that a digit writes.
pub open spec fn dia_of_char(c: char) -> Dia {
    if c == '2' {
        Dia::Segunda
    } else if c == '3' {
        Dia::Terca
    } else if c == '4' {
        Dia::Quarta
    } else if c == '5' {
        Dia::Quinta
    } else if c == '6' {
        Dia::Sexta
    } else {
        Dia::Sabado
    }
}

/// Rank of a shift in the order M12, M34, M56, T12, T34, T56, N12, N34.
pub open spec fn turno_index(t: Turno) -> int {
    match t {
        Turno::Manha(HorarioDiurno::Primeiro) => 0,
        Turno::Manha(HorarioDiurno::Segundo) => 1,
        Turno::Manha(HorarioDiurno::Terceiro) => 2,
        Turno::Tarde(HorarioDiurno::Primeiro) => 3,
        Turno::Tarde(HorarioDiurno::Segundo) => 4,
        Turno::Tarde(HorarioDiurno::Terceiro) => 5,
        Turno::Noite(HorarioNoturno::Primeiro) => 6,
        Turno::Noite(HorarioNoturno::Segundo) => 7,
    }
}

/// The shift of rank `i` (N34 past the end).
pub open spec fn turno_at(i: int) -> Turno {
    if i <= 0 {
        Turno::Manha(HorarioDiurno::Primeiro)
    } else if i == 1 {
        Turno::Manha(HorarioDiurno::Segundo)
    } else if i == 2 {
        Turno::Manha(HorarioDiurno::Terceiro)
    } else if i == 3 {
        Turno::Tarde(HorarioDiurno::Primeiro)
    } else if i == 4 {
        Turno::Tarde(HorarioDiurno::Segundo)
    } else if i == 5 {
        Turno::Tarde(HorarioDiurno::Terceiro)
    } else if i == 6 {
        Turno::Noite(HorarioNoturno::Primeiro)
    } else {
        Turno::Noite(HorarioNoturno::Segundo)
    }
}

/// True of the three letters that name a shift.
pub open spec fn is_shift_letter(c: char) -> bool {
    c == 'M' || c == 'T' || c == 'N'
}

/// The letter of a shift.
pub open spec fn turno_letter(t: Turno) -> char {
    match t {
        Turno::Manha(_) => 'M',
        Turno::Tarde(_) => 'T',
        Turno::Noite(_) => 'N',
    }
}

/// The two digits of a daytime period.
pub open spec fn diurno_digits(h: HorarioDiurno) -> (char, char) {
    match h {
        HorarioDiurno::Primeiro => ('1', '2'),
        HorarioDiurno::Segundo => ('3', '4'),
        HorarioDiurno::Terceiro => ('5', '6'),
    }
}

/// The two digits of a night period.
pub open spec fn noturno_digits(h: HorarioNoturno) -> (char, char) {
    match h {
        HorarioNoturno::Primeiro => ('1', '2'),
        HorarioNoturno::Segundo => ('3', '4'),
    }
}

/// The two digits of the period of a shift.
pub open spec fn turno_digits(t: Turno) -> (char, char) {
    match t {
        Turno::Manha(h) => diurno_digits(h),
        Turno::Tarde(h) => diurno_digits(h),
        Turno::Noite(h) => noturno_digits(h),
    }
}

/// The three characters that write a shift, e.g. `T34`.
pub open spec fn turno_code(t: Turno) -> Seq<char> {
    seq![turno_letter(t), turno_digits(t).0, turno_digits(t).1]
}

/// The shift that a letter and two digits write, if any.
pub open spec fn turno_of_chars(l: char, a: char, b: char) -> Option<Turno> {
    if l == 'M' || l == 'T' {
        let h = if a == '1' && b == '2' {
            Some(HorarioDiurno::Primeiro)
        } else if a == '3' && b == '4' {
            Some(HorarioDiurno::Segundo)
        } else if a == '5' && b == '6' {
            Some(HorarioDiurno::Terceiro)
        } else {
            None
        };
        match h {
            Some(h) => if l == 'M' {
                Some(Turno::Manha(h))
            } else {
                Some(Turno::Tarde(h))
            },
            None => None,
        }
    } else if l == 'N' {
        if a == '1' && b == '2' {
            Some(Turno::Noite(HorarioNoturno::Primeiro))
        } else if a == '3' && b == '4' {
            Some(Turno::Noite(HorarioNoturno::Segundo))
        } else {
            None
        }
    } else {
        None
    }
}

/// Rank of a time code in the order of the week: by day, then by shift.
pub open spec fn time_key(t: SigaaTime) -> int {
    dia_index(t.dia) * 8 + turno_index(t.turno)
}

/// The four characters that write a time code, e.g. `3T34`.
pub open spec fn time_code(t: SigaaTime) -> Seq<char> {
    seq![dia_char(t.dia)] + turno_code(t.turno)
}

/// Writing a shift and reading it back gives the same shift.
pub proof fn lemma_turno_chars_round_trip(t: Turno)
    ensures
        turno_of_chars(turno_letter(t), turno_digits(t).0, turno_digits(t).1) == Some(t),
{
}

/// Two time codes of the same rank are the same time code.
pub proof fn lemma_time_key_injective(a: SigaaTime, b: SigaaTime)
    ensures
        time_key(a) == time_key(b) <==> a == b,
{
}

impl Dia {
    /// The day at position `index` of the week, Monday being `0`.
    pub fn from_index(index: usize) -> (r: Result<Dia, SigaaTimeErrors>)
        ensures
            index < 6 ==> r == Ok::<Dia, SigaaTimeErrors>(dia_at(index as int)),
            index >= 6 ==> r == Err::<Dia, SigaaTimeErrors>(SigaaTimeErrors::InvalidUsizeToDay),
    {
        match index {
            0 => Ok(Dia::Segunda),
            1 => Ok(Dia::Terca),
            2 => Ok(Dia::Quarta),
            3 => Ok(Dia::Quinta),
            4 => Ok(Dia::Sexta),
            5 => Ok(Dia::Sabado),
            _ => Err(SigaaTimeErrors::InvalidUsizeToDay),
        }
    }

    /// Position of the day in the week, Monday being `0`.
    pub fn index(&self) -> (r: usize)
        ensures
            r == dia_index(*self),
    {
        match self {
            Dia::Segunda => 0,
            Dia::Terca => 1,
            Dia::Quarta => 2,
            Dia::Quinta => 3,
            Dia::Sexta => 4,
            Dia::Sabado => 5,
        }
    }

    /// The digit that writes the day.
    pub fn to_char(&self) -> (r: char)
        ensures
            r == dia_char(*self),
    {
        match self {
            Dia::Segunda => '2',
            Dia::Terca => '3',
            Dia::Quarta => '4',
            Dia::Quinta => '5',
            Dia::Sexta => '6',
            Dia::Sabado => '7',
        }
    }

    /// The day that the digit `c` writes.
    pub fn from_char(c: char) -> (r: Result<Dia, SigaaTimeErrors>)
        ensures
            is_day_char(c) ==> r == Ok::<Dia, SigaaTimeErrors>(dia_of_char(c)),
            !is_day_char(c) ==> r == Err::<Dia, SigaaTimeErrors>(
                SigaaTimeErrors::InvalidStringToDay,
            ),
    {
        match c {
            '2' => Ok(Dia::Segunda),
            '3' => Ok(Dia::Terca),
            '4' => Ok(Dia::Quarta),
            '5' => Ok(Dia::Quinta),
            '6' => Ok(Dia::Sexta),
            '7' => Ok(Dia::Sabado),
            _ => Err(SigaaTimeErrors::InvalidStringToDay),
        }
    }

    /// Reads a day from its one-digit code.
    pub fn parse(s: &str) -> (r: Result<Dia, SigaaTimeErrors>)
        ensures
            r is Ok <==> s@.len() == 1 && is_day_char(s@[0]),
            r matches Ok(d) ==> seq![dia_char(d)] == s@,
            r matches Err(e) ==> e == SigaaTimeErrors::InvalidStringToDay,
    {
        if s.unicode_len() != 1 {
            return Err(SigaaTimeErrors::InvalidStringToDay);
        }
        let r = Dia::from_char(s.get_char(0));
        proof {
            if r is Ok {
                assert(seq![dia_char(r->Ok_0)] =~= s@);
            }
        }
        r
    }

    /// The code of the day, e.g. `3` for Tuesday.
    pub fn to_string(&self) -> (r: String)
        ensures
            r@ == seq![dia_char(*self)],
    {
        let mut r = String::new();
        push_char(&mut r, self.to_char());
        r
    }
}

impl Turno {
    /// The shift of rank `index` in the order M12, M34, M56, T12, T34, T56, N12, N34.
    pub fn from_index(index: usize) -> (r: Result<Turno, SigaaTimeErrors>)
        ensures
            index < 8 ==> r == Ok::<Turno, SigaaTimeErrors>(turno_at(index as int)),
            index >= 8 ==> r == Err::<Turno, SigaaTimeErrors>(
                SigaaTimeErrors::InvalidUsizeToHorario,
            ),
    {
        match index {
            0 => Ok(Turno::Manha(HorarioDiurno::Primeiro)),
            1 => Ok(Turno::Manha(HorarioDiurno::Segundo)),
            2 => Ok(Turno::Manha(HorarioDiurno::Terceiro)),
            3 => Ok(Turno::Tarde(HorarioDiurno::Primeiro)),
            4 => Ok(Turno::Tarde(HorarioDiurno::Segundo)),
            5 => Ok(Turno::Tarde(HorarioDiurno::Terceiro)),
            6 => Ok(Turno::Noite(HorarioNoturno::Primeiro)),
            7 => Ok(Turno::Noite(HorarioNoturno::Segundo)),
            _ => Err(SigaaTimeErrors::InvalidUsizeToHorario),
        }
    }

    /// Rank of the shift in the order M12, M34, M56, T12, T34, T56, N12, N34.
    pub fn index(&self) -> (r: usize)
        ensures
            r == turno_index(*self),
    {
        match self {
            Turno::Manha(HorarioDiurno::Primeiro) => 0,
            Turno::Manha(HorarioDiurno::Segundo) => 1,
            Turno::Manha(HorarioDiurno::Terceiro) => 2,
            Turno::Tarde(HorarioDiurno::Primeiro) => 3,
            Turno::Tarde(HorarioDiurno::Segundo) => 4,
            Turno::Tarde(HorarioDiurno::Terceiro) => 5,
            Turno::Noite(HorarioNoturno::Primeiro) => 6,
            Turno::Noite(HorarioNoturno::Segundo) => 7,
        }
    }

    /// The letter of the shift: `M`, `T` or `N`.
    pub fn letter(&self) -> (r: char)
        ensures
            r == turno_letter(*self),
    {
        match self {
            Turno::Manha(_) => 'M',
            Turno::Tarde(_) => 'T',
            Turno::Noite(_) => 'N',
        }
    }

    /// The two digits of the period of the shift.
    pub fn digits(&self) -> (r: (char, char))
        ensures
            r == turno_digits(*self),
    {
        match self {
            Turno::Manha(HorarioDiurno::Primeiro) | Turno::Tarde(HorarioDiurno::Primeiro) | Turno::Noite(
                HorarioNoturno::Primeiro,
            ) => ('1', '2'),
            Turno::Manha(HorarioDiurno::Segundo) | Turno::Tarde(HorarioDiurno::Segundo) | Turno::Noite(
                HorarioNoturno::Segundo,
            ) => ('3', '4'),
            Turno::Manha(HorarioDiurno::Terceiro) | Turno::Tarde(HorarioDiurno::Terceiro) => ('5', '6'),
        }
    }

    /// The shift that the letter `l` and the digits `a`, `b` write.
    pub fn from_chars(l: char, a: char, b: char) -> (r: Result<Turno, SigaaTimeErrors>)
        ensures
            turno_of_chars(l, a, b) matches Some(t) ==> r == Ok::<Turno, SigaaTimeErrors>(t),
            turno_of_chars(l, a, b) is None ==> r == Err::<Turno, SigaaTimeErrors>(
                SigaaTimeErrors::InvalidStringToTurno,
            ),
    {
        match (l, a, b) {
            ('M', '1', '2') => Ok(Turno::Manha(HorarioDiurno::Primeiro)),
            ('M', '3', '4') => Ok(Turno::Manha(HorarioDiurno::Segundo)),
            ('M', '5', '6') => Ok(Turno::Manha(HorarioDiurno::Terceiro)),
            ('T', '1', '2') => Ok(Turno::Tarde(HorarioDiurno::Primeiro)),
            ('T', '3', '4') => Ok(Turno::Tarde(HorarioDiurno::Segundo)),
            ('T', '5', '6') => Ok(Turno::Tarde(HorarioDiurno::Terceiro)),
            ('N', '1', '2') => Ok(Turno::Noite(HorarioNoturno::Primeiro)),
            ('N', '3', '4') => Ok(Turno::Noite(HorarioNoturno::Segundo)),
            _ => Err(SigaaTimeErrors::InvalidStringToTurno),
        }
    }

    /// Reads a shift from its three-character code, e.g. `T34`.
    pub fn parse(s: &str) -> (r: Result<Turno, SigaaTimeErrors>)
        ensures
            r is Ok <==> s@.len() == 3 && turno_of_chars(s@[0], s@[1], s@[2]) is Some,
            r matches Ok(t) ==> turno_code(t) == s@,
            r matches Err(e) ==> e == SigaaTimeErrors::InvalidStringToTurno,
    {
        if s.unicode_len() != 3 {
            return Err(SigaaTimeErrors::InvalidStringToTurno);
        }
        let r = Turno::from_chars(s.get_char(0), s.get_char(1), s.get_char(2));
        proof {
            if r is Ok {
                assert(turno_code(r->Ok_0) =~= s@);
            }
        }
        r
    }

    /// The code of the shift, e.g. `T34`.
    pub fn to_string(&self) -> (r: String)
        ensures
            r@ == turno_code(*self),
    {
        let mut r = String::new();
        let (a, b) = self.digits();
        push_char(&mut r, self.letter());
        push_char(&mut r, a);
        push_char(&mut r, b);
        proof {
            assert(r@ =~= turno_code(*self));
        }
        r
    }
}

impl SigaaTime {
    /// The time code of day `dia` and shift `turno`.
    pub fn new(dia: Dia, turno: Turno) -> (r: SigaaTime)
        ensures
            r.dia == dia,
            r.turno == turno,
    {
        SigaaTime { dia, turno }
    }

    /// Reads a time code from the code of its day (`"2"`) and of its shift (`"M12"`).
    pub fn new_from_strings(dia_str: &str, turno_str: &str) -> (r: Result<SigaaTime, SigaaTimeErrors>)
        ensures
            r is Ok <==> (dia_str@.len() == 1 && is_day_char(dia_str@[0]) && turno_str@.len() == 3
                && turno_of_chars(turno_str@[0], turno_str@[1], turno_str@[2]) is Some),
            r matches Ok(t) ==> seq![dia_char(t.dia)] == dia_str@ && turno_code(t.turno)
                == turno_str@,
            r matches Err(e) ==> (if dia_str@.len() == 1 && is_day_char(dia_str@[0]) {
                e == SigaaTimeErrors::InvalidStringToTurno
            } else {
                e == SigaaTimeErrors::InvalidStringToDay
            }),
    {
        let dia = match Dia::parse(dia_str) {
            Ok(d) => d,
            Err(e) => return Err(e),
        };
        let turno = match Turno::parse(turno_str) {
            Ok(t) => t,
            Err(e) => return Err(e),
        };
        Ok(SigaaTime::new(dia, turno))
    }

    /// The time code written by the day digit `d`, the shift letter `l` and the period digits `a`, `b`.
    pub fn from_chars(d: char, l: char, a: char, b: char) -> (r: Result<SigaaTime, SigaaTimeErrors>)
        ensures
            r is Ok <==> is_day_char(d) && turno_of_chars(l, a, b) is Some,
            r matches Ok(t) ==> time_code(t) == seq![d, l, a, b],
    {
        let dia = match Dia::from_char(d) {
            Ok(x) => x,
            Err(e) => return Err(e),
        };
        let turno = match Turno::from_chars(l, a, b) {
            Ok(x) => x,
            Err(e) => return Err(e),
        };
        let r = SigaaTime::new(dia, turno);
        proof {
            assert(time_code(r) =~= seq![d, l, a, b]);
        }
        Ok(r)
    }

    /// Reads a time code from its four-character code, e.g. `"3T34"`: text that has not the
    /// shape of a shorthand gives `InvalidStringToSigaaTime`; a shorthand with more than one
    /// day digit gives `InvalidStringToDay`; one with more than one period gives
    /// `InvalidStringToTurno`, as does a pair that is no period of the shift.
    pub fn parse(s: &str) -> (r: Result<SigaaTime, SigaaTimeErrors>)
        ensures
            r is Ok <==> exists|t: SigaaTime| time_code(t) == s@,
            r matches Ok(t) ==> time_code(t) == s@,
            r matches Err(e) ==> (if !matches_pattern(s@) {
                e == SigaaTimeErrors::InvalidStringToSigaaTime
            } else if !(s@.len() > 1 && is_day_char(s@[0]) && is_shift_letter(s@[1])) {
                e == SigaaTimeErrors::InvalidStringToDay
            } else {
                e == SigaaTimeErrors::InvalidStringToTurno
            }),
    {
        match shorthand_captures(s) {
            None => {
                proof {
                    if exists|t: SigaaTime| time_code(t) == s@ {
                        let t = choose|t: SigaaTime| time_code(t) == s@;
                        assert(pattern_at(s@, 1));
                    }
                }
                Err(SigaaTimeErrors::InvalidStringToSigaaTime)
            },
            Some((dias, turno, horarios)) => {
                let ghost k = dias@.len() as int;
                let turno_horarios = turno.concat(horarios.as_str());
                let r = SigaaTime::new_from_strings(dias.as_str(), turno_horarios.as_str());
                proof {
                    assert(s@.subrange(0, k) =~= dias@);
                    assert(s@.subrange(k, s@.len() as int) =~= turno_horarios@);
                    if r is Ok {
                        let t = r->Ok_0;
                        assert(time_code(t) =~= s@);
                    }
                    if exists|t: SigaaTime| time_code(t) == s@ {
                        let t = choose|t: SigaaTime| time_code(t) == s@;
                        if k != 1 {
                            assert(pattern_digit(s@[1]));
                        }
                        assert(turno_code(t.turno) =~= s@.subrange(1, 4));
                        lemma_turno_chars_round_trip(t.turno);
                    }
                    if s@.len() > 1 && is_day_char(s@[0]) && is_shift_letter(s@[1]) {
                        if k != 1 {
                            assert(pattern_digit(s@[1]));
                        }
                    } else if k == 1 {
                        assert(is_shift_letter(s@[1]));
                    }
                }
                r
            },
        }
    }

    /// Rank of the time code in the week: by day, then by shift.
    pub fn key(&self) -> (r: usize)
        ensures
            r == time_key(*self),
            r < 48,
    {
        self.dia.index() * 8 + self.turno.index()
    }

    /// The code of the time, e.g. `3T34`.
    pub fn to_string(&self) -> (r: String)
        ensures
            r@ == time_code(*self),
    {
        let mut r = String::new();
        let (a, b) = self.turno.digits();
        push_char(&mut r, self.dia.to_char());
        push_char(&mut r, self.turno.letter());
        push_char(&mut r, a);
        push_char(&mut r, b);
        proof {
            assert(r@ =~= time_code(*self));
        }
        r
    }
}

/// The time codes of `s` ascend strictly in the order of the week: a set, listed in order.
pub open spec fn sorted_times(s: Seq<SigaaTime>) -> bool {
    forall|i: int, j: int|
        0 <= i < j < s.len() ==> time_key(#[trigger] s[i]) < time_key(#[trigger] s[j])
}

/// Adds `t` to the ordered set `v`; returns false, and leaves `v` as it was, when `t` is
/// in it already.
pub fn insert_time(v: &mut Vec<SigaaTime>, t: SigaaTime) -> (inserted: bool)
    requires
        sorted_times(old(v)@),
    ensures
        sorted_times(final(v)@),
        inserted == !old(v)@.contains(t),
        !inserted ==> final(v)@ == old(v)@,
        forall|x: SigaaTime| #[trigger]
            final(v)@.contains(x) <==> old(v)@.contains(x) || x == t,
{
    let key = t.key();
    let mut p: usize = 0;
    while p < v.len() && v[p].key() < key
        invariant
            p <= v@.len(),
            key == time_key(t),
            sorted_times(v@),
            forall|j: int| 0 <= j < p ==> time_key(#[trigger] v@[j]) < key,
        decreases v@.len() - p,
    {
        p = p + 1;
    }
    if p < v.len() && v[p] == t {
        return false;
    }
    proof {
        assert forall|j: int| 0 <= j < v@.len() implies v@[j] != t by {
            if j >= p {
                lemma_time_key_injective(v@[p as int], t);
                if j > p {
                    assert(time_key(v@[p as int]) < time_key(v@[j]));
                }
            }
        }
    }
    let ghost old_v = v@;
    v.insert(p, t);
    proof {
        assert forall|x: SigaaTime| #[trigger] v@.contains(x) <==> old_v.contains(x) || x == t by {
            if v@.contains(x) {
                let j = choose|j: int| 0 <= j < v@.len() && v@[j] == x;
                if j < p {
                    assert(old_v[j] == x);
                } else if j > p {
                    assert(old_v[j - 1] == x);
                }
            }
            if old_v.contains(x) {
                let j = choose|j: int| 0 <= j < old_v.len() && old_v[j] == x;
                if j < p {
                    assert(v@[j] == x);
                } else {
                    assert(v@[j + 1] == x);
                }
            }
            if x == t {
                assert(v@[p as int] == x);
            }
        }
        assert forall|i: int, j: int| 0 <= i < j < v@.len() implies time_key(#[trigger] v@[i])
            < time_key(#[trigger] v@[j]) by {
            if j < p {
                assert(v@[i] == old_v[i] && v@[j] == old_v[j]);
            } else if j == p {
                assert(v@[i] == old_v[i]);
            } else if i == p {
                assert(v@[j] == old_v[j - 1]);
                lemma_time_key_injective(old_v[p as int], t);
            } else if i < p {
                assert(v@[i] == old_v[i] && v@[j] == old_v[j - 1]);
            } else {
                assert(v@[i] == old_v[i - 1] && v@[j] == old_v[j - 1]);
            }
        }
    }
    true
}

/// Relies on `String::push`: the character is appended at the end.
#[verifier::external_body]
pub(crate) fn push_char(s: &mut String, c: char)
    ensures
        final(s)@ == old(s)@.push(c),
{
    s.push(c)
}

} // verus!
