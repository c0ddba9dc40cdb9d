//! Numeral parsing and formatting, specification keys, test-group
//! flattening, and configuration resolution.

use emutest::config::{resolve, Config, ConfigError};
use emutest::emulator::GPRegister;
use emutest::hex::{fmt_dec_u32, fmt_hex8_u32, fmt_hex_u32, parse_dec_u32, parse_dec_u8,
    parse_hex_u32};
use emutest::tests::{parse_check_key, try_parse_hex_or_dec, CheckKey, Test, TestChecks, TestData,
    Tests};
use emutest::threadpool::Name;

#[test]
fn hex_parsing_reads_both_cases_exactly() {
    assert_eq!(parse_hex_u32(b"deadBEEF"), Some(0xdead_beef));
    assert_eq!(parse_hex_u32(b"0"), Some(0));
    assert_eq!(parse_hex_u32(b"ffffffff"), Some(u32::MAX));
    assert_eq!(parse_hex_u32(b"100000000"), None);
    assert_eq!(parse_hex_u32(b""), None);
    assert_eq!(parse_hex_u32(b"12g4"), None);
}

#[test]
fn decimal_parsing_rejects_overflow_and_signs() {
    assert_eq!(parse_dec_u32(b"4294967295"), Some(u32::MAX));
    assert_eq!(parse_dec_u32(b"4294967296"), None);
    assert_eq!(parse_dec_u32(b"+1"), None);
    assert_eq!(parse_dec_u8(b"31"), Some(31));
    assert_eq!(parse_dec_u8(b"256"), None);
}

#[test]
fn formatting_matches_the_standard_writers() {
    assert_eq!(fmt_hex_u32(0xdead_beef), b"deadbeef".to_vec());
    assert_eq!(fmt_hex_u32(0), b"0".to_vec());
    assert_eq!(fmt_hex8_u32(0x5), b"00000005".to_vec());
    assert_eq!(fmt_dec_u32(260), b"260".to_vec());
    assert_eq!(fmt_dec_u32(0), b"0".to_vec());
}

#[test]
fn formatting_then_parsing_gives_the_number_back() {
    for w in [0u32, 1, 9, 0x10, 0xdead_beef, u32::MAX] {
        assert_eq!(parse_hex_u32(&fmt_hex_u32(w)), Some(w));
        assert_eq!(parse_hex_u32(&fmt_hex8_u32(w)), Some(w));
        assert_eq!(parse_dec_u32(&fmt_dec_u32(w)), Some(w));
    }
}

#[test]
fn keys_name_registers_and_memory() {
    assert_eq!(parse_check_key(b"r1"), Some(CheckKey::Reg(GPRegister::new(1).unwrap())));
    assert_eq!(parse_check_key(b"R31"), Some(CheckKey::Reg(GPRegister::new(31).unwrap())));
    assert_eq!(parse_check_key(b"r32"), None);
    assert_eq!(parse_check_key(b"m[4096]"), Some(CheckKey::Mem(4096)));
    assert_eq!(parse_check_key(b"M[0x1000]"), Some(CheckKey::Mem(0x1000)));
    assert_eq!(parse_check_key(b"m[]"), None);
    assert_eq!(parse_check_key(b"x7"), None);
    assert_eq!(parse_check_key(b""), None);
}

#[test]
fn hex_or_dec_follows_the_prefix() {
    assert_eq!(try_parse_hex_or_dec(b"0x10"), Some(16));
    assert_eq!(try_parse_hex_or_dec(b"10"), Some(10));
    assert_eq!(try_parse_hex_or_dec(b"0x"), None);
    assert_eq!(try_parse_hex_or_dec(b"zz"), None);
}

fn empty_checks() -> TestChecks {
    TestChecks(Vec::new())
}

#[test]
fn single_tests_are_labelled_after_their_group() {
    let tests = Tests(vec![("mul".to_string(), Test::Single(TestData::NoSetup(empty_checks())))]);
    let flat = tests.get_tests();
    assert_eq!(flat.len(), 1);
    assert_eq!(flat[0].0, "mul");
    assert_eq!(flat[0].1.len(), 1);
    assert_eq!(flat[0].1[0].0, "test_mul");
}

#[test]
fn listed_tests_use_their_own_name_or_an_index() {
    let named = TestData::WithSetup {
        entrypoint: None,
        name: Some("special".to_string()),
        setup: empty_checks(),
        checks: empty_checks(),
    };
    let tests = Tests(vec![(
        "add".to_string(),
        Test::Multiple(vec![TestData::NoSetup(empty_checks()), named]),
    )]);
    let flat = tests.get_tests();
    assert_eq!(flat[0].1.len(), 2);
    assert_eq!(flat[0].1[0].0, "test_add0");
    assert_eq!(flat[0].1[1].0, "special");
}

#[test]
fn get_name_reports_only_declared_names() {
    let anon = TestData::NoSetup(empty_checks());
    assert_eq!(anon.get_name(), None);
    let named = TestData::WithSetup {
        entrypoint: None,
        name: Some("n".to_string()),
        setup: empty_checks(),
        checks: empty_checks(),
    };
    assert_eq!(named.get_name(), Some("n"));
}

#[test]
fn job_names_join_group_and_test() {
    let job = (
        3usize,
        "group".to_string(),
        "test".to_string(),
        TestData::NoSetup(empty_checks()),
    );
    assert_eq!(job.name(), "group/test");
}

fn cfg(
    assembler: Option<&str>,
    emulator: Option<&str>,
    ens_file: Option<&str>,
    serie_file: Option<&str>,
) -> Config {
    Config {
        assembler: assembler.map(str::to_string),
        emulator: emulator.map(str::to_string),
        ens_file: ens_file.map(str::to_string),
        serie_file: serie_file.map(str::to_string),
    }
}

#[test]
fn command_line_choices_win_over_file_choices() {
    let cli = cfg(Some("/cli/as"), None, Some("/cli/t.ens"), Some("/cli/serie"));
    let file = cfg(Some("/file/as"), Some("/file/emu"), Some("/file/t.ens"), None);
    let r = resolve(cli, file).expect("all paths settle");
    assert_eq!(r.assembler, "/cli/as");
    assert_eq!(r.emulator, "/file/emu");
    assert_eq!(r.ens_file, "/cli/t.ens");
    assert_eq!(r.serie_file, "/cli/serie");
}

#[test]
fn series_file_defaults_to_serie_beside_the_emulator() {
    let cli = cfg(Some("as"), Some("/opt/tools/emu"), Some("t.ens"), None);
    let file = cfg(None, None, None, None);
    let r = resolve(cli, file).expect("all paths settle");
    assert_eq!(r.serie_file, "/opt/tools/serie");
}

#[test]
fn each_missing_path_is_its_own_error() {
    let none = cfg(None, None, None, None);
    assert_eq!(
        resolve(cfg(None, None, None, None), cfg(None, None, None, None)),
        Err(ConfigError::MissingAssembler)
    );
    assert_eq!(
        resolve(cfg(Some("a"), None, None, None), cfg(None, None, None, None)),
        Err(ConfigError::MissingEmulator)
    );
    assert_eq!(
        resolve(cfg(Some("a"), Some("e"), None, None), none),
        Err(ConfigError::MissingEnsFile)
    );
    assert_eq!(
        resolve(cfg(Some("a"), Some("emu"), Some("t"), None), cfg(None, None, None, None)),
        Err(ConfigError::NoEmulatorParent)
    );
}

#[test]
fn compiler_and_emulator_argument_lists() {
    let c = emutest::compiler::CompilerBuilder::new("asm".to_string())
        .ens_file("prog.ens".to_string())
        .outfile("out.bin".to_string())
        .build();
    let args = c.run_args("entry");
    assert_eq!(args, vec!["-e", "entry", "-o", "out.bin", "prog.ens"]);

    let e = emutest::emulator::EmulatorBuilder::new("emu", "serie")
        .binfile("out.bin".to_string())
        .build();
    assert_eq!(e.program, "emu");
    assert_eq!(e.args, vec!["-c", "serie", "out.bin"]);

    let defaulted = emutest::emulator::EmulatorBuilder::new("emu", "serie").build();
    assert_eq!(defaulted.args[2], "CDV.bin");
}

#[test]
fn register_indices_stop_at_thirty_two() {
    assert!(GPRegister::new(31).is_some());
    assert!(GPRegister::new(32).is_none());
    assert_eq!(GPRegister::new(7).unwrap().index(), 7);
}
