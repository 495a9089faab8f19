use sigaa_sched::disciplina::Disciplina;
use sigaa_sched::time::{Dia, HorarioDiurno, SigaaTime, SigaaTimeErrors, Turno};
use sigaa_sched::{Schedule, ScheduleUnity};

#[test]
fn should_generate_a_correct_abrv() {
    let abv = Disciplina::generate_abreviacao("Algo Muideto Foda de tlgd");
    assert_eq!(abv, "AMFT")
}

#[test]
fn should_create_a_correct_list_of_sigaa_time_days() {
    let sigaa_times = Disciplina::valid_string_to_vec_sigaa_times("246T12");

    let sigaa_time_1 = SigaaTime::new_from_strings("2", "T12").unwrap();
    let sigaa_time_2 = SigaaTime::new_from_strings("4", "T12").unwrap();
    let sigaa_time_3 = SigaaTime::new_from_strings("6", "T12").unwrap();

    let mut sigaa_times_iter = sigaa_times.iter();

    assert_eq!(sigaa_times_iter.next(), Some(&sigaa_time_1));
    assert_eq!(sigaa_times_iter.next(), Some(&sigaa_time_2));
    assert_eq!(sigaa_times_iter.next(), Some(&sigaa_time_3));
}

#[test]
fn should_create_a_correct_list_of_sigaa_time_hour() {
    let sigaa_times = Disciplina::valid_string_to_vec_sigaa_times("2T123456");
    let sigaa_time_1 = SigaaTime::new_from_strings("2", "T12").unwrap();
    let sigaa_time_2 = SigaaTime::new_from_strings("2", "T34").unwrap();
    let sigaa_time_3 = SigaaTime::new_from_strings("2", "T56").unwrap();

    let mut sigaa_times_iter = sigaa_times.iter();

    assert_eq!(sigaa_times_iter.next(), Some(&sigaa_time_1));
    assert_eq!(sigaa_times_iter.next(), Some(&sigaa_time_2));
    assert_eq!(sigaa_times_iter.next(), Some(&sigaa_time_3));
}

#[test]
fn should_create_a_correct_list_of_sigaa_time_days_and_hours() {
    let sigaa_times = Disciplina::valid_string_to_vec_sigaa_times("246T1234");
    let sigaa_time_1 = SigaaTime::new_from_strings("2", "T12").unwrap();
    let sigaa_time_2 = SigaaTime::new_from_strings("2", "T34").unwrap();
    let sigaa_time_3 = SigaaTime::new_from_strings("4", "T12").unwrap();
    let sigaa_time_4 = SigaaTime::new_from_strings("4", "T34").unwrap();
    let sigaa_time_5 = SigaaTime::new_from_strings("6", "T12").unwrap();
    let sigaa_time_6 = SigaaTime::new_from_strings("6", "T34").unwrap();
    let mut sigaa_times_iter = sigaa_times.iter();

    assert_eq!(sigaa_times_iter.next(), Some(&sigaa_time_1));
    assert_eq!(sigaa_times_iter.next(), Some(&sigaa_time_2));
    assert_eq!(sigaa_times_iter.next(), Some(&sigaa_time_3));
    assert_eq!(sigaa_times_iter.next(), Some(&sigaa_time_4));
    assert_eq!(sigaa_times_iter.next(), Some(&sigaa_time_5));
    assert_eq!(sigaa_times_iter.next(), Some(&sigaa_time_6));
}

#[test]
fn should_generate_a_correct_sigaa_time_display() {
    let disciplina = Disciplina::new_stringify("fun mat comp", "246T12").unwrap();
    assert_eq!(disciplina.generate_horario_display(), "246T12");
}

#[test]
fn should_create_a_schedule_unity() {
    let sigaa_time = SigaaTime::new(Dia::Terca, Turno::Tarde(HorarioDiurno::Segundo));

    let schedule_unity = ScheduleUnity::new(sigaa_time, None);

    let sigaa_time_str: String = sigaa_time.to_string();

    assert_eq!(sigaa_time_str, "3T34");
    assert_eq!(schedule_unity.horario, sigaa_time);
    assert_eq!(schedule_unity.disciplina, None);
}

#[test]
fn should_create_a_schedule() -> Result<(), SigaaTimeErrors> {
    let schedule = Schedule::new();

    let sigaa_time = SigaaTime::new_from_strings("2", "M12")?;
    let sigaa_time_2 = SigaaTime::new_from_strings("3", "M12")?;

    let schedule_unity = ScheduleUnity::new(sigaa_time, None);
    let schedule_unity_2 = ScheduleUnity::new(sigaa_time_2, None);

    assert_eq!(schedule.len(), (8, 6));
    assert_eq!(schedule.get(0, 0), Some(&schedule_unity));
    assert_eq!(schedule.get(0, 1), Some(&schedule_unity_2));

    Ok(())
}

#[test]
fn insert_into_schedule_should_return_ok() {
    let mut schedule = Schedule::new();

    let disciplina_1 =
        Disciplina::new_stringify("Fundamentos mamáticos da computação I", "246M12").unwrap();

    assert_eq!(schedule.insert(disciplina_1.clone()), Ok(()));
}
