use sigaa_sched::abbreviation::generate_abreviacao;
use sigaa_sched::disciplina::{Disciplina, DisciplinaErrors};
use sigaa_sched::shorthand::{is_formatted, valid_string_to_vec_sigaa_times};
use sigaa_sched::time::{Dia, HorarioDiurno, HorarioNoturno, SigaaTime, SigaaTimeErrors, Turno};
use sigaa_sched::{DisciplineWasFound, Schedule, ScheduleError};

fn time(code: &str) -> SigaaTime {
    SigaaTime::parse(code).unwrap()
}

fn codes(times: &[SigaaTime]) -> Vec<String> {
    times.iter().map(|t| t.to_string()).collect()
}

#[test]
fn formatted_codes_expand_to_their_times() {
    for code in ["2T12", "246T56", "5N34", "36M12", "246M56", "23456T123456", "7N1234"] {
        assert!(is_formatted(code));
        let course = Disciplina::new_stringify("x", code).unwrap();
        assert!(!course.sigaa_time.is_empty());
    }
}

#[test]
fn rejected_codes_give_time_not_formatted() {
    for code in ["24X34", "29M12", "1234T1234", "", "2T1", "234567T12", "2T1234567", "T12", "2T"] {
        assert!(!is_formatted(code));
        assert_eq!(
            Disciplina::new_stringify("x", code).unwrap_err(),
            DisciplinaErrors::TimeNotFormatted
        );
    }
}

#[test]
fn formatted_codes_whose_periods_do_not_pair_up_are_refused() {
    for code in ["2T13", "2N56", "2T123", "4M21"] {
        assert!(is_formatted(code));
        assert_eq!(
            Disciplina::new_stringify("x", code).unwrap_err(),
            DisciplinaErrors::TimeNotFormatted
        );
    }
}

#[test]
fn expansion_is_ordered_and_without_duplicates() {
    assert_eq!(codes(&valid_string_to_vec_sigaa_times("642T12")), ["2T12", "4T12", "6T12"]);
    assert_eq!(codes(&valid_string_to_vec_sigaa_times("22T1212")), ["2T12"]);
    assert_eq!(codes(&valid_string_to_vec_sigaa_times("2M5612")), ["2M12", "2M56"]);
    assert_eq!(
        codes(&valid_string_to_vec_sigaa_times("35N1234")),
        ["3N12", "3N34", "5N12", "5N34"]
    );
    assert_eq!(valid_string_to_vec_sigaa_times("23456T123456").len(), 15);
}

#[test]
fn abbreviation_skips_stop_words_in_any_case() {
    assert_eq!(generate_abreviacao("Algo Muideto Foda de tlgd"), "AMFT");
    assert_eq!(generate_abreviacao("Curso DE Algo"), "CA");
    assert_eq!(generate_abreviacao("Teoria dos Grafos Em Redes das Coisas do Mundo"), "TGRCM");
    assert_eq!(generate_abreviacao("  calculo\tnumerico \n"), "CN");
    assert_eq!(generate_abreviacao("Fundamentos matemáticos da computação I"), "FMCI");
    assert_eq!(generate_abreviacao("édipo rei"), "éR");
    assert_eq!(generate_abreviacao(""), "");
    assert_eq!(generate_abreviacao("de da"), "");
}

#[test]
fn time_codes_read_and_write() {
    let t = SigaaTime::parse("3T34").unwrap();
    assert_eq!(t, SigaaTime::new(Dia::Terca, Turno::Tarde(HorarioDiurno::Segundo)));
    assert_eq!(t.to_string(), "3T34");
    assert_eq!(time("7N34").turno, Turno::Noite(HorarioNoturno::Segundo));
    assert_eq!(time("2M12").key(), 0);
    assert_eq!(time("7N34").key(), 47);
    assert_eq!(Dia::Sabado.to_string(), "7");
    assert_eq!(Turno::Manha(HorarioDiurno::Terceiro).to_string(), "M56");
}

#[test]
fn time_code_errors() {
    assert_eq!(SigaaTime::parse("hello"), Err(SigaaTimeErrors::InvalidStringToSigaaTime));
    assert_eq!(SigaaTime::parse("24T12"), Err(SigaaTimeErrors::InvalidStringToDay));
    assert_eq!(SigaaTime::parse("8T12"), Err(SigaaTimeErrors::InvalidStringToDay));
    assert_eq!(SigaaTime::parse("2T1234"), Err(SigaaTimeErrors::InvalidStringToTurno));
    assert_eq!(SigaaTime::parse("2N56"), Err(SigaaTimeErrors::InvalidStringToTurno));
    assert_eq!(Dia::from_index(6), Err(SigaaTimeErrors::InvalidUsizeToDay));
    assert_eq!(Dia::from_index(5), Ok(Dia::Sabado));
    assert_eq!(Turno::from_index(8), Err(SigaaTimeErrors::InvalidUsizeToHorario));
    assert_eq!(Turno::from_index(6), Ok(Turno::Noite(HorarioNoturno::Primeiro)));
    assert_eq!(Turno::parse("N56"), Err(SigaaTimeErrors::InvalidStringToTurno));
    assert_eq!(Dia::parse("1"), Err(SigaaTimeErrors::InvalidStringToDay));
    assert_eq!(
        SigaaTime::new_from_strings("9", "M12"),
        Err(SigaaTimeErrors::InvalidStringToDay)
    );
    assert_eq!(
        SigaaTime::new_from_strings("2", "M13"),
        Err(SigaaTimeErrors::InvalidStringToTurno)
    );
}

#[test]
fn add_time_refuses_a_time_already_there() {
    let mut course = Disciplina::new("Algebra", vec![time("4M12"), time("2M12"), time("4M12")]);
    assert_eq!(codes(&course.sigaa_time), ["2M12", "4M12"]);
    assert_eq!(course.abreviacao, "A");
    assert_eq!(course.add_time(time("2M12")), Err(DisciplinaErrors::TimeAlreadyInserted));
    assert_eq!(codes(&course.sigaa_time), ["2M12", "4M12"]);
    assert_eq!(course.add_time(time("3T56")), Ok(()));
    assert_eq!(codes(&course.sigaa_time), ["2M12", "3T56", "4M12"]);
    let empty = Disciplina::new_with_time("Vazio".to_string(), Vec::new());
    assert!(empty.sigaa_time.is_empty());
}

#[test]
fn course_text_and_display() {
    let course = Disciplina::new_stringify("Calculo de Uma Variavel", "35T34").unwrap();
    assert_eq!(course.to_string(), "Calculo de Uma Variavel - CUV - 35T34");
    let mixed = Disciplina::new("Mista", vec![time("2M12"), time("4T34"), time("4N12")]);
    assert_eq!(mixed.generate_horario_display(), "24M123412");
    let none = Disciplina::new("Sem", Vec::new());
    assert_eq!(none.generate_horario_display(), "");
    let owned = Disciplina::new_with_time_string("Sem".to_string(), "7N12".to_string()).unwrap();
    assert_eq!(owned.generate_horario_display(), "7N12");
}

#[test]
fn end_to_end_course_in_a_fresh_grid() {
    let course =
        Disciplina::new_stringify("Fundamentos matemáticos da computação I", "246M12").unwrap();
    assert_eq!(codes(&course.sigaa_time), ["2M12", "4M12", "6M12"]);
    let mut grid = Schedule::new();
    assert_eq!(grid.insert(course.clone()), Ok(()));
    assert_eq!(grid.lookup(&time("2M12")).disciplina, Some(course.clone()));
    assert_eq!(grid.lookup(&time("3M12")).disciplina, None);
}

#[test]
fn found_after_insert_for_each_own_code() {
    let mut grid = Schedule::new();
    let course = Disciplina::new_stringify("Redes", "35N1234").unwrap();
    grid.insert(course.clone()).unwrap();
    for t in &course.sigaa_time {
        let single = Disciplina::new("Outra", vec![*t]);
        assert_eq!(
            grid.verify_availability(&single),
            DisciplineWasFound::DisciplineFound(course.clone())
        );
        assert_eq!(grid.lookup(t).disciplina, Some(course.clone()));
    }
}

#[test]
fn insert_then_remove_restores_the_grid() {
    let mut grid = Schedule::new();
    let other = Disciplina::new_stringify("Outra", "7T12").unwrap();
    grid.insert(other.clone()).unwrap();
    let course = Disciplina::new_stringify("Logica", "24T1234").unwrap();
    assert_eq!(grid.insert(course.clone()), Ok(()));
    assert_eq!(grid.remove(course.clone()), Ok(()));
    for t in &course.sigaa_time {
        assert_eq!(grid.lookup(t).disciplina, None);
    }
    assert_eq!(grid.lookup(&time("7T12")).disciplina, Some(other));
    assert_eq!(grid.remove(course.clone()), Err(ScheduleError::DisciplineNotFoundToRemove));
    assert_eq!(grid.verify_availability(&course), DisciplineWasFound::DisciplineNotFound);
}

#[test]
fn conflicting_insert_and_remove() {
    let mut grid = Schedule::new();
    let c1 = Disciplina::new_stringify("Primeira", "2M12").unwrap();
    let c2 = Disciplina::new_stringify("Segunda", "24M12").unwrap();
    assert_eq!(grid.insert(c1.clone()), Ok(()));
    assert_eq!(
        grid.insert(c2.clone()),
        Err(ScheduleError::ConflictingDisciplines(c1.clone(), c2.clone()))
    );
    assert_eq!(grid.lookup(&time("4M12")).disciplina, None);
    assert_eq!(grid.lookup(&time("2M12")).disciplina, Some(c1.clone()));
    assert_eq!(
        grid.remove(c2.clone()),
        Err(ScheduleError::ConflictingDisciplines(c1.clone(), c2.clone()))
    );
    assert_eq!(grid.lookup(&time("2M12")).disciplina, Some(c1));
}

#[test]
fn grid_lookups() {
    let grid = Schedule::default();
    assert_eq!(grid.len(), (8, 6));
    assert!(grid.get(8, 0).is_none());
    assert!(grid.get(0, 6).is_none());
    assert_eq!(grid.get(7, 5).unwrap().horario.to_string(), "7N34");
    assert_eq!(grid.get(3, 2).unwrap().horario.to_string(), "4T12");
    assert!(grid.get_from_str("2X12").is_none());
    assert!(grid.get_from_str("24M12").is_none());
    assert_eq!(grid.get_from_str("5N12").unwrap().horario.to_string(), "5N12");
    let unit = sigaa_sched::ScheduleUnity::default();
    assert_eq!(unit.horario.to_string(), "2M12");
    assert_eq!(unit.disciplina, None);
}

#[test]
fn total_hours_count_each_weekly_slot() {
    let a = Disciplina::new_stringify("A", "246M12").unwrap();
    let b = Disciplina::new_stringify("B", "3T1234").unwrap();
    assert_eq!(sigaa_sched::disciplina::calculate_total_hours(&vec![a, b]), 150);
    assert_eq!(sigaa_sched::disciplina::calculate_total_hours(&Vec::new()), 0);
}
