use nebula_tools::i18n::{parse_translations, I18nManager, Language};
use nebula_tools::particleex::{
    get_command_config, normalize_command_name, parse_command, parse_int, resolve_lifespan,
    split_args, validate_command, BinOp, CommandError, CommandMode,
};
use nebula_tools::settings::{AppConfig, AppMode, CompressProgress, CreatorPreset, EditTool};

#[test]
fn integers_parse_like_std() {
    assert_eq!(parse_int("42", 1), 42);
    assert_eq!(parse_int("+7", 1), 7);
    assert_eq!(parse_int("-1", 9), 9);
    assert_eq!(parse_int("4294967295", 3), 4294967295);
    assert_eq!(parse_int("4294967296", 3), 3);
    assert_eq!(parse_int("abc", 5), 5);
    assert_eq!(parse_int("", 5), 5);
    assert_eq!(parse_int("+", 5), 5);
    assert_eq!(parse_int(" 4", 5), 5);
    assert_eq!(parse_int("007", 5), 7);
}

#[test]
fn lifespans() {
    assert_eq!(resolve_lifespan("-1", 200), 6000);
    assert_eq!(resolve_lifespan("-2147483648", 200), 6000);
    assert_eq!(resolve_lifespan("0", 200), 200);
    assert_eq!(resolve_lifespan("35", 200), 35);
    assert_eq!(resolve_lifespan("2147483647", 200), 2147483647);
    assert_eq!(resolve_lifespan("2147483648", 200), 200);
    assert_eq!(resolve_lifespan("1.5", 200), 200);
    assert_eq!(resolve_lifespan("x", 80), 80);
}

#[test]
fn command_names() {
    assert_eq!(normalize_command_name("tick-polar-parameter"), "tickpolarparameter");
    assert_eq!(normalize_command_name("normal"), "normal");
    assert_eq!(normalize_command_name("--"), "");
    let c = get_command_config("rgba-tick-parameter").unwrap();
    assert!(!c.has_color && c.is_animated && !c.is_polar && !c.is_normal && !c.is_conditional);
    let c = get_command_config("tickpolarparameter").unwrap();
    assert!(c.has_color && c.is_animated && c.is_polar);
    let c = get_command_config("normal").unwrap();
    assert!(c.is_normal && c.has_color && !c.is_conditional);
    let c = get_command_config("conditional").unwrap();
    assert!(c.is_conditional && !c.is_normal);
    let c = get_command_config("rgbapolarparameter").unwrap();
    assert!(!c.has_color && !c.is_animated && c.is_polar);
    assert!(get_command_config("Normal").is_none());
    assert!(get_command_config("sparkle").is_none());
    assert!(get_command_config("").is_none());
}

#[test]
fn arguments_split_at_whitespace_outside_quotes() {
    assert_eq!(split_args("particleex normal  end_rod\t0 0 0"), vec!["particleex", "normal", "end_rod", "0", "0", "0"]);
    assert_eq!(split_args("a 'b c' \"d 'e'\" f"), vec!["a", "b c", "d 'e'", "f"]);
    assert_eq!(split_args("a '' b"), vec!["a", "b"]);
    assert_eq!(split_args("x='1 2';y=3"), vec!["x=1 2;y=3"]);
    assert!(split_args("   ").is_empty());
    assert_eq!(split_args("'open quote"), vec!["open quote"]);
}

#[test]
fn normal_command_layout() {
    let c = parse_command("particleex normal end_rod 1 2 3 1 0 0 1 0 0 0 1 1 1 50 100 vy=1 0").unwrap();
    assert_eq!(c.command_type, "normal");
    assert_eq!(c.layout.center, 3);
    assert_eq!(c.layout.color, Some(6));
    assert_eq!(c.layout.velocity, 10);
    match c.layout.mode {
        CommandMode::Normal { range, count, lifespan, speed_expr } => {
            assert_eq!((range, count, lifespan, speed_expr), (13, 50, 100, Some(18)));
        }
        _ => panic!("not a normal command"),
    }
    assert_eq!(c.parts[18], "vy=1");
}

#[test]
fn normal_command_defaults() {
    let c = parse_command("normal end_rod 0 0 0").unwrap();
    assert_eq!(c.layout.center, 2);
    match c.layout.mode {
        CommandMode::Normal { range, count, lifespan, speed_expr } => {
            assert_eq!((range, count, lifespan, speed_expr), (12, 1, 200, None));
        }
        _ => panic!("not a normal command"),
    }
    let c = parse_command("particleex normal e 0 0 0 0 0 0 0 0 0 0 1 1 1 0 -1 a;b c=d e").unwrap();
    match c.layout.mode {
        CommandMode::Normal { count, lifespan, speed_expr, .. } => {
            assert_eq!((count, lifespan, speed_expr), (1, 6000, Some(19)));
        }
        _ => panic!("not a normal command"),
    }
}

#[test]
fn parameter_command_layout() {
    let c = parse_command("/particlex rgbatickparameter end_rod 0 0 0 0 0 0 -5 5 x=t 0.5 0 -1").unwrap();
    assert_eq!(c.command_type, "rgbatickparameter");
    assert_eq!(c.layout.color, None);
    assert_eq!(c.layout.velocity, 6);
    match c.layout.mode {
        CommandMode::Parameter { t_begin, t_end, shape, t_step, cpt, lifespan, speed_expr, speed_step } => {
            assert_eq!((t_begin, t_end, shape, t_step), (9, 10, 11, 12));
            assert_eq!((cpt, lifespan, speed_expr, speed_step), (10, 6000, 15, 16));
        }
        _ => panic!("not a parameter command"),
    }
    let c = parse_command("particleex parameter end_rod 0 0 0 1 1 1 1 0 0 0 -1 1 y=t 0.1 9 7").unwrap();
    match c.layout.mode {
        CommandMode::Parameter { t_begin, cpt, lifespan, speed_expr, .. } => {
            assert_eq!((t_begin, cpt, lifespan, speed_expr), (13, 10, 9, 18));
        }
        _ => panic!("not a parameter command"),
    }
}

#[test]
fn conditional_command_layout() {
    let c = parse_command("particleex conditional end_rod 0 0 0 1 1 1 1 0 0 0 2 2 2 x>0 0.2 40 vx=1").unwrap();
    match c.layout.mode {
        CommandMode::Conditional { range, condition, step, lifespan, speed_expr } => {
            assert_eq!((range, condition, step, lifespan, speed_expr), (13, 16, 17, 40, 19));
        }
        _ => panic!("not a conditional command"),
    }
    assert_eq!(c.parts[16], "x>0");
}

#[test]
fn command_words_and_types() {
    let c = parse_command("PARTICLEEX Tick-Parameter end_rod").unwrap();
    assert_eq!(c.command_type, "tick-parameter");
    assert!(c.layout.config.is_animated);
    let c = parse_command("xxparticlexyy normal a").unwrap();
    assert_eq!(c.layout.center, 3);
    assert!(parse_command("particleex sparkle x").is_none());
    assert!(parse_command("particleex normal").is_none());
    assert!(parse_command("").is_none());
}

#[test]
fn validation_errors() {
    assert_eq!(validate_command("   ").err(), Some(CommandError::Empty));
    assert_eq!(validate_command("").err(), Some(CommandError::Empty));
    assert_eq!(validate_command("normal end_rod 0 0 0").err(), Some(CommandError::NotACommand));
    assert_eq!(validate_command("particle normal end_rod").err(), Some(CommandError::NotACommand));
    assert_eq!(validate_command("particleex bogus a b").err(), Some(CommandError::BadArguments));
    assert_eq!(validate_command("/particlex normal").err(), Some(CommandError::BadArguments));
    let c = validate_command("  \u{3000}Particleex normal end_rod 0 0 0 1 1 1 1 0 0 0 1 1 1 20 \n").unwrap();
    match c.layout.mode {
        CommandMode::Normal { count, lifespan, .. } => assert_eq!((count, lifespan), (20, 200)),
        _ => panic!("not a normal command"),
    }
}

#[test]
fn operators_are_distinct() {
    assert_ne!(BinOp::Add, BinOp::Sub);
    assert_eq!(BinOp::Pow, BinOp::Pow);
}

#[test]
fn languages() {
    assert_eq!(Language::ChineseSimplified.display_name(), "简体中文");
    assert_eq!(Language::English.display_name(), "English");
    assert_eq!(Language::ChineseSimplified.config_key(), "zh");
    assert_eq!(Language::English.config_key(), "en");
}

#[test]
fn translations_fall_back_to_the_key() {
    let zh = r#"{"welcome": "欢迎", "open_existing": "打开"}"#;
    let en = r#"{"welcome": "Welcome"}"#;
    let mut m = I18nManager::new(Language::English, zh, en);
    assert_eq!(m.tr("welcome"), "Welcome");
    assert_eq!(m.tr("open_existing"), "open_existing");
    m.active_lang = Language::ChineseSimplified;
    assert_eq!(m.tr("open_existing"), "打开");
    m.load_all("not json", en);
    assert_eq!(m.tr("welcome"), "welcome");
    assert_eq!(parse_translations(r#"{"b": "2", "a": "1"}"#).len(), 2);
    assert!(parse_translations(r#"{"a": 1}"#).is_empty());
    assert!(parse_translations("[]").is_empty());
}

#[test]
fn settings_defaults() {
    let c = AppConfig::default();
    assert_eq!(c.lang, "en_US");
    assert_ne!(AppMode::Edit, AppMode::Preview);
    assert_ne!(EditTool::Trim, EditTool::Compress);
    assert_eq!(CreatorPreset::Custom, CreatorPreset::Custom);
    let p = CompressProgress { total_frames: 10, current_frame: 3, is_done: false, error: None };
    assert!(p.current_frame < p.total_frames && !p.is_done && p.error.is_none());
}

use nebula_tools::compile::{compile_lines, CompileError, COMPILED_FPS};
use nebula_tools::particleex::ParsedCommand;
use nebula_tools::timeline::{Keyframe, Track};

fn one_track_per_command(entry: usize, cmd: &ParsedCommand, start: i32) -> (Vec<Track>, i32) {
    let tick = entry as u32 + cmd.parts.len() as u32 % 2;
    let k = Keyframe { tick, pos: [start as u32, 0, 0], color: [1, 2, 3, 4], size: 0 };
    (vec![Track { id: start, keyframes: vec![k] }], start + 1)
}

#[test]
fn compiling_threads_ids_and_lays_out_frames() {
    let texts = vec![
        "particleex normal a 0 0 0\nnot a command\n  /particlex bogus x y  \r\n".to_string(),
        "\n\nPARTICLEX normal b 1 1 1".to_string(),
    ];
    let (frames, fps) = match compile_lines(&texts, &one_track_per_command) {
        Ok(r) => r,
        Err(_) => panic!("expected frames"),
    };
    assert_eq!(fps, 60);
    assert_eq!(COMPILED_FPS, 60);
    assert_eq!(frames.len(), 2);
    let ids: Vec<Vec<i32>> = frames.iter().map(|f| f.iter().map(|p| p.id).collect()).collect();
    assert_eq!(ids, vec![vec![0], vec![1]]);
    assert_eq!(frames[1][0].pos[0], 1);
}

#[test]
fn compiling_reports_failed_lines_when_nothing_is_generated() {
    let texts = vec!["particleex bogus a b".to_string(), "x\n  /particleex normal \nhello".to_string()];
    match compile_lines(&texts, &one_track_per_command) {
        Err(CompileError::Failed(lines)) => {
            assert_eq!(lines, vec!["particleex bogus a b", "/particleex normal"]);
        }
        _ => panic!("expected the failed lines"),
    }
    assert!(matches!(
        compile_lines(&vec!["hello".to_string(), String::new()], &one_track_per_command),
        Err(CompileError::NoParticles)
    ));
    let nothing = |_e: usize, _c: &ParsedCommand, id: i32| (Vec::<Track>::new(), id);
    assert!(matches!(
        compile_lines(&vec!["particleex normal a".to_string()], &nothing),
        Err(CompileError::NoParticles)
    ));
    let too_late = |_e: usize, _c: &ParsedCommand, id: i32| {
        let k = Keyframe { tick: u32::MAX, pos: [0; 3], color: [0; 4], size: 0 };
        (vec![Track { id, keyframes: vec![k] }], id + 1)
    };
    assert!(matches!(
        compile_lines(&vec!["particleex normal a".to_string()], &too_late),
        Err(CompileError::TooLong)
    ));
}

#[test]
fn unquoted_lines_split_like_split_ascii_whitespace() {
    for line in ["a  b\tc\n d", "", "   ", "particleex normal end_rod 0 0 0", "x=1;y=2  z"] {
        let expected: Vec<String> = line.split_ascii_whitespace().map(String::from).collect();
        assert_eq!(split_args(line), expected);
    }
}

use nebula_tools::particleex::{is_command_text, names_command, read_command};

#[test]
fn reading_with_the_type_already_lowered() {
    let parts: Vec<String> = ["X", "Rgba-Tick-Parameter", "end_rod", "0", "0", "0"].iter().map(|s| s.to_string()).collect();
    let c = read_command(parts.clone(), 1, "rgba-tick-parameter".to_string()).unwrap();
    assert_eq!(c.command_type, "rgba-tick-parameter");
    assert_eq!(c.layout.velocity, 6);
    assert!(c.layout.color.is_none());
    assert!(read_command(parts.clone(), 1, "Rgba-Tick-Parameter".to_string()).is_none());
    let c = read_command(parts, 0, "normal".to_string()).unwrap();
    assert_eq!(c.layout.center, 2);
    assert!(names_command("/particleex"));
    assert!(names_command("xparticlexy"));
    assert!(!names_command("PARTICLEEX"));
    assert!(is_command_text("/particlex normal"));
    assert!(is_command_text("particleex"));
    assert!(!is_command_text("Particleex normal"));
    assert!(!is_command_text(" particleex"));
}
