use boom_you_up_r::error::{NormalError, PrintingArgs};
use boom_you_up_r::parse::{
    answer_is_no, is_truthy, parse_isize, parse_item_with_all_parameters, parse_notify,
    parse_time, parse_u8,
};
use boom_you_up_r::time::Time;

fn tokens(line: &str) -> Vec<String> {
    line.split_whitespace().map(|s| s.to_string()).collect()
}

fn t(hour: u8, minute: u8, second: u8) -> Time {
    Time { hour, minute, second }
}

#[test]
fn u8_tokens_parse_as_their_value() {
    assert_eq!(parse_u8("0"), Some(0));
    assert_eq!(parse_u8("07"), Some(7));
    assert_eq!(parse_u8("+7"), Some(7));
    assert_eq!(parse_u8("255"), Some(255));
    assert_eq!(parse_u8("256"), None);
    assert_eq!(parse_u8(""), None);
    assert_eq!(parse_u8("+"), None);
    assert_eq!(parse_u8("-1"), None);
    assert_eq!(parse_u8("1a"), None);
    assert_eq!(parse_u8("99999999999999999999"), None);
}

#[test]
fn isize_tokens_parse_with_their_sign() {
    assert_eq!(parse_isize("120"), Some(120));
    assert_eq!(parse_isize("+5"), Some(5));
    assert_eq!(parse_isize("-90"), Some(-90));
    assert_eq!(parse_isize("0"), Some(0));
    assert_eq!(parse_isize(""), None);
    assert_eq!(parse_isize("-"), None);
    assert_eq!(parse_isize("n"), None);
    assert_eq!(parse_isize(&isize::MAX.to_string()), Some(isize::MAX));
    assert_eq!(parse_isize(&isize::MIN.to_string()), Some(isize::MIN));
    assert_eq!(parse_isize("99999999999999999999999999"), None);
}

#[test]
fn time_lines_parse_in_both_spellings() {
    assert_eq!(parse_time(&tokens("7 30 0")), Ok(t(7, 30, 0)));
    assert_eq!(parse_time(&tokens("07 30 00")), Ok(t(7, 30, 0)));
    assert_eq!(parse_time(&tokens("11 45 14 extra")), Ok(t(11, 45, 14)));
    assert_eq!(parse_time(&tokens("23 59 59")), Ok(t(23, 59, 59)));
}

#[test]
fn time_fields_outside_their_ranges_are_number_errors() {
    assert_eq!(parse_time(&tokens("24 0 0")), Err(NormalError::NumberFormat));
    assert_eq!(parse_time(&tokens("7 60 0")), Err(NormalError::NumberFormat));
    assert_eq!(parse_time(&tokens("7 30 60")), Err(NormalError::NumberFormat));
    assert_eq!(parse_time(&tokens("x 30 0")), Err(NormalError::NumberFormat));
    assert_eq!(parse_time(&tokens("7 x 0")), Err(NormalError::NumberFormat));
}

#[test]
fn missing_time_fields_are_input_errors() {
    assert_eq!(parse_time(&Vec::new()), Err(NormalError::Input));
    assert_eq!(parse_time(&tokens("7")), Err(NormalError::Input));
    assert_eq!(parse_time(&tokens("7 30")), Err(NormalError::Input));
}

#[test]
fn a_full_line_parses_into_time_and_command() {
    let line = tokens("12 00 00 n n C:\\Users\\desk\\clip.mp4");
    let (time, command) = parse_item_with_all_parameters(&line).unwrap();
    assert_eq!(time, t(12, 0, 0));
    assert_eq!(command.command, "C:\\Users\\desk\\clip.mp4");
    assert_eq!(command.parameters, "");
    assert!(!command.audio);
    assert_eq!(command.notify, -1);
}

#[test]
fn a_line_with_lead_seconds_and_parameters_parses_fully() {
    let line = tokens("11 45 14 y 0 player --loop --volume 3");
    let (time, command) = parse_item_with_all_parameters(&line).unwrap();
    assert_eq!(time, t(11, 45, 14));
    assert!(command.audio);
    assert_eq!(command.notify, 0);
    assert_eq!(command.command, "player");
    assert_eq!(command.parameters, "--loop --volume 3");
}

#[test]
fn short_lines_are_input_errors() {
    assert_eq!(
        parse_item_with_all_parameters(&tokens("7 0 0")).unwrap_err(),
        NormalError::Input
    );
    assert_eq!(
        parse_item_with_all_parameters(&tokens("7 0 0 y")).unwrap_err(),
        NormalError::Input
    );
    assert_eq!(
        parse_item_with_all_parameters(&tokens("7 0 0 y 120")).unwrap_err(),
        NormalError::Input
    );
}

#[test]
fn a_bad_time_in_a_full_line_keeps_its_number_error() {
    assert_eq!(
        parse_item_with_all_parameters(&tokens("25 0 0 y 120 prog")).unwrap_err(),
        NormalError::NumberFormat
    );
}

#[test]
fn an_unreadable_lead_token_means_no_notice() {
    let line = tokens("7 0 0 n maybe prog");
    let (_, command) = parse_item_with_all_parameters(&line).unwrap();
    assert_eq!(command.notify, -1);
}

#[test]
fn truthy_accepts_the_documented_spellings() {
    for yes in ["y", "Y", "1", "yes", "YES", "Yes", "true", "TRUE", "True"] {
        assert!(is_truthy(yes), "{yes} should affirm");
    }
    for no in ["n", "no", "0", "", "yess", "tru", "2"] {
        assert!(!is_truthy(no), "{no} should not affirm");
    }
}

#[test]
fn only_a_lone_n_declines() {
    assert!(answer_is_no("n"));
    assert!(answer_is_no("N"));
    assert!(!answer_is_no("no"));
    assert!(!answer_is_no(""));
    assert!(!answer_is_no("y"));
}

#[test]
fn notify_answers_parse_their_lead_seconds() {
    assert_eq!(parse_notify("y", "120"), Ok(120));
    assert_eq!(parse_notify("y", "-1"), Ok(-1));
    assert_eq!(parse_notify("y", "soon"), Err(NormalError::NumberFormat));
    assert_eq!(parse_notify("n", ""), Ok(-1));
    assert_eq!(parse_notify("Y", "120"), Ok(-1));
}

#[test]
fn printing_args_carry_their_messages() {
    let args = PrintingArgs::unexpected();
    assert_eq!(args.err_message, "错误");
    assert!(args.ok_message.is_none());

    let args = PrintingArgs::normal();
    assert_eq!(args.err_message, "遇到了问题");

    let args = PrintingArgs::customized("执行命令时遇到了问题");
    assert_eq!(args.err_message, "执行命令时遇到了问题");

    let args = PrintingArgs::normal().ok_message("测试成功");
    assert_eq!(args.ok_message.as_deref(), Some("测试成功"));
    assert_eq!(args.err_message, "遇到了问题");

    let args = PrintingArgs::normal().err_message("另一个问题");
    assert_eq!(args.err_message, "另一个问题");
}

#[test]
fn errors_compare_and_clone_by_value() {
    let e = NormalError::Execution(String::from("exit status 1"));
    assert_eq!(e.clone(), e);
    assert_ne!(e, NormalError::Play(String::from("exit status 1")));
    assert_ne!(NormalError::Input, NormalError::Cancelled);
    assert_eq!(
        NormalError::Notify(String::from("no bus")),
        NormalError::Notify(String::from("no bus"))
    );
}
