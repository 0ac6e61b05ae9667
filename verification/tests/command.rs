use pack::command::{
    default_compress_output, default_decompress_output, parse_command, parse_number,
    parse_optional_block_size, usage, Command, NumberFault,
};

fn line(words: &[&str]) -> Vec<String> {
    words.iter().map(|w| w.to_string()).collect()
}

#[test]
fn numbers_are_read_like_decimal_integers() {
    assert_eq!(parse_number("512"), Ok(512));
    assert_eq!(parse_number("+7"), Ok(7));
    assert_eq!(parse_number("00"), Ok(0));
    assert_eq!(parse_number(&usize::MAX.to_string()), Ok(usize::MAX));
    assert_eq!(parse_number(""), Err(NumberFault::Empty));
    assert_eq!(parse_number("+"), Err(NumberFault::InvalidDigit));
    assert_eq!(parse_number("-1"), Err(NumberFault::InvalidDigit));
    assert_eq!(parse_number("12x"), Err(NumberFault::InvalidDigit));
    assert_eq!(
        parse_number("99999999999999999999999"),
        Err(NumberFault::TooLarge)
    );
    assert_eq!(
        parse_number("99999999999999999999999x"),
        "99999999999999999999999x"
            .parse::<usize>()
            .map_err(|_| NumberFault::TooLarge)
    );
}

#[test]
fn bad_block_sizes_are_reported_like_std_reports_them() {
    for raw in ["", "+", "x1", "99999999999999999999999"] {
        let text = raw.to_string();
        let error = raw.parse::<usize>().unwrap_err();
        assert_eq!(
            parse_optional_block_size(Some(&text)),
            Err(format!("invalid block size '{raw}': {error}"))
        );
    }
    assert_eq!(parse_optional_block_size(Some(&"64".to_string())), Ok(Some(64)));
    assert_eq!(parse_optional_block_size(None), Ok(None));
}

#[test]
fn verbs_and_aliases_are_understood() {
    assert_eq!(
        parse_command(&line(&["pack", "compress", "a.bin"])),
        Ok(Command::Compress {
            input: "a.bin".to_string(),
            output: None,
            block_size: None
        })
    );
    assert_eq!(
        parse_command(&line(&["pack", "pack", "a.bin", "b.pack", "128"])),
        Ok(Command::Compress {
            input: "a.bin".to_string(),
            output: Some("b.pack".to_string()),
            block_size: Some(128)
        })
    );
    assert_eq!(
        parse_command(&line(&["pack", "unpack", "a.pack", "-"])),
        Ok(Command::Decompress {
            input: "a.pack".to_string(),
            output: None
        })
    );
    assert_eq!(
        parse_command(&line(&["pack", "benchmark", "dir", "64"])),
        Ok(Command::Benchmark {
            path: "dir".to_string(),
            block_size: Some(64)
        })
    );
    assert_eq!(
        parse_command(&line(&["pack", "benchmark-generator", "dir"])),
        Ok(Command::BenchmarkGenerator {
            path: "dir".to_string(),
            block_size: None
        })
    );
    assert_eq!(
        parse_command(&line(&["pack", "benchmark-generator-debug", "file"])),
        Ok(Command::BenchmarkGeneratorDebug {
            path: "file".to_string(),
            block_size: None
        })
    );
}

#[test]
fn a_number_anywhere_on_the_line_is_the_block_size() {
    assert_eq!(
        parse_command(&line(&["pack", "compress", "a.bin", "256"])),
        Ok(Command::Compress {
            input: "a.bin".to_string(),
            output: Some("256".to_string()),
            block_size: Some(256)
        })
    );
}

#[test]
fn incomplete_lines_are_answered_with_the_usage() {
    for words in [
        vec!["pack"],
        vec!["pack", "explode", "a"],
        vec!["pack", "compress"],
        vec!["pack", "decompress"],
        vec!["pack", "benchmark"],
    ] {
        assert_eq!(parse_command(&line(&words)), Err(usage()));
    }
    assert!(parse_command(&line(&["pack", "benchmark", "dir", "big"]))
        .unwrap_err()
        .starts_with("invalid block size 'big'"));
    assert!(usage().starts_with("Usage:\n  pack compress <input> [output]"));
    assert!(usage().ends_with("  pack benchmark-generator-debug <file> [block_size_bytes]"));
}

#[test]
fn default_names_are_undone() {
    assert_eq!(default_compress_output("data.bin"), "data.bin.pack");
    assert_eq!(default_decompress_output("data.bin.pack"), "data.bin");
    assert_eq!(default_decompress_output("data.bin"), "data.bin.out");
    assert_eq!(default_decompress_output("pack"), "pack.out");
    assert_eq!(
        default_decompress_output(&default_compress_output("données")),
        "données"
    );
}
