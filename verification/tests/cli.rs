use lib::cli::{parse_args, usage_text};
use lib::types::Subsampling;

/// Turn a list of string slices into owned arguments.
fn args(strs: &[&str]) -> Vec<String> {
    strs.iter().map(|s| s.to_string()).collect()
}

#[test]
fn parse_minimal_args()
{
    let opts = parse_args(&args(&["photo.ppm"])).unwrap();
    assert_eq!(opts.input, "photo.ppm");
    assert_eq!(opts.output, "photo.jpg");
    assert_eq!(opts.quality, 85);
    assert_eq!(opts.subsampling, Subsampling::S420);
    assert_eq!(opts.restart_interval, 0);
}

#[test]
fn parse_output_short()
{
    let opts = parse_args(&args(&["in.ppm", "-o", "out.jpg"])).unwrap();
    assert_eq!(opts.output, "out.jpg");
}

#[test]
fn parse_output_long()
{
    let opts = parse_args(&args(&["in.ppm", "--output", "out.jpg"])).unwrap();
    assert_eq!(opts.output, "out.jpg");
}

#[test]
fn parse_output_missing_value()
{
    let result = parse_args(&args(&["in.ppm", "-o"]));
    assert!(result.is_err());
    assert!(result.unwrap_err().contains("requires"));
}

#[test]
fn parse_quality_short()
{
    let opts = parse_args(&args(&["in.ppm", "-q", "50"])).unwrap();
    assert_eq!(opts.quality, 50);
}

#[test]
fn parse_quality_long()
{
    let opts = parse_args(&args(&["in.ppm", "--quality", "100"])).unwrap();
    assert_eq!(opts.quality, 100);
}

#[test]
fn parse_quality_zero_rejected()
{
    let result = parse_args(&args(&["in.ppm", "-q", "0"]));
    assert!(result.is_err());
}

#[test]
fn parse_quality_101_rejected()
{
    let result = parse_args(&args(&["in.ppm", "-q", "101"]));
    assert!(result.is_err());
}

#[test]
fn parse_quality_non_numeric()
{
    let result = parse_args(&args(&["in.ppm", "-q", "abc"]));
    assert!(result.is_err());
}

#[test]
fn parse_quality_missing_value()
{
    let result = parse_args(&args(&["in.ppm", "-q"]));
    assert!(result.is_err());
}

#[test]
fn parse_subsampling_444()
{
    let opts = parse_args(&args(&["in.ppm", "-s", "444"])).unwrap();
    assert_eq!(opts.subsampling, Subsampling::S444);
}

#[test]
fn parse_subsampling_422()
{
    let opts = parse_args(&args(&["in.ppm", "-s", "422"])).unwrap();
    assert_eq!(opts.subsampling, Subsampling::S422);
}

#[test]
fn parse_subsampling_420()
{
    let opts = parse_args(&args(&["in.ppm", "--subsampling", "420"])).unwrap();
    assert_eq!(opts.subsampling, Subsampling::S420);
}

#[test]
fn parse_subsampling_invalid()
{
    let result = parse_args(&args(&["in.ppm", "-s", "411"]));
    assert!(result.is_err());
}

#[test]
fn parse_subsampling_missing_value()
{
    let result = parse_args(&args(&["in.ppm", "-s"]));
    assert!(result.is_err());
}

#[test]
fn parse_restart_short()
{
    let opts = parse_args(&args(&["in.ppm", "-r", "10"])).unwrap();
    assert_eq!(opts.restart_interval, 10);
}

#[test]
fn parse_restart_long()
{
    let opts = parse_args(&args(&["in.ppm", "--restart", "100"])).unwrap();
    assert_eq!(opts.restart_interval, 100);
}

#[test]
fn parse_restart_missing_value()
{
    let result = parse_args(&args(&["in.ppm", "-r"]));
    assert!(result.is_err());
}

#[test]
fn parse_restart_non_numeric()
{
    let result = parse_args(&args(&["in.ppm", "-r", "xyz"]));
    assert!(result.is_err());
}

#[test]
fn parse_help_short()
{
    let result = parse_args(&args(&["-h"]));
    assert!(result.is_err());
    assert_eq!(result.unwrap_err(), "__help__");
}

#[test]
fn parse_help_long()
{
    let result = parse_args(&args(&["--help"]));
    assert!(result.is_err());
    assert_eq!(result.unwrap_err(), "__help__");
}

#[test]
fn parse_no_input()
{
    let result = parse_args(&args(&[]));
    assert!(result.is_err());
    assert!(result.unwrap_err().contains("no input"));
}

#[test]
fn parse_unknown_option()
{
    let result = parse_args(&args(&["in.ppm", "--verbose"]));
    assert!(result.is_err());
    assert!(result.unwrap_err().contains("unknown option"));
}

#[test]
fn parse_multiple_inputs_rejected()
{
    let result = parse_args(&args(&["a.ppm", "b.ppm"]));
    assert!(result.is_err());
    assert!(result.unwrap_err().contains("multiple"));
}

#[test]
fn parse_all_flags_combined()
{
    let opts = parse_args(&args(&[
        "photo.ppm", "-o", "out.jpg", "-q", "75",
        "-s", "444", "-r", "5",
    ])).unwrap();
    assert_eq!(opts.input, "photo.ppm");
    assert_eq!(opts.output, "out.jpg");
    assert_eq!(opts.quality, 75);
    assert_eq!(opts.subsampling, Subsampling::S444);
    assert_eq!(opts.restart_interval, 5);
}

#[test]
fn default_output_replaces_extension()
{
    let opts = parse_args(&args(&["image.ppm"])).unwrap();
    assert_eq!(opts.output, "image.jpg");
}

#[test]
fn default_output_with_path()
{
    let opts = parse_args(&args(&["/tmp/dir/image.ppm"])).unwrap();
    assert_eq!(opts.output, "/tmp/dir/image.jpg");
}

#[test]
fn usage_text_contains_options()
{
    let text = usage_text();
    assert!(text.contains("--quality"));
    assert!(text.contains("--output"));
    assert!(text.contains("--subsampling"));
    assert!(text.contains("--restart"));
    assert!(text.contains("--help"));
}

#[test]
fn error_messages_are_exact() {
    let err = |a: &[&str]| parse_args(&args(a)).unwrap_err();
    assert_eq!(err(&["in.ppm", "-o"]), "-o requires a filename");
    assert_eq!(err(&["in.ppm", "-q"]), "-q requires a value");
    assert_eq!(err(&["in.ppm", "-q", "abc"]), "quality must be a number 1-100");
    assert_eq!(err(&["in.ppm", "-q", "0"]), "quality must be 1-100");
    assert_eq!(err(&["in.ppm", "-q", "101"]), "quality must be 1-100");
    assert_eq!(err(&["in.ppm", "-s"]), "subsampling must be 444, 422, or 420");
    assert_eq!(err(&["in.ppm", "-r"]), "-r requires a value");
    assert_eq!(err(&["in.ppm", "-r", "-1"]), "restart interval must be a number 0-65535");
    assert_eq!(err(&["in.ppm", "-x"]), "unknown option: -x");
    assert_eq!(err(&["a.ppm", "b.ppm"]), "multiple input files not supported");
    assert_eq!(err(&["-q", "50"]), "no input file specified");
}

#[test]
fn quality_is_parsed_as_a_byte() {
    // 256 does not fit in a byte, so it is not a number for this option.
    assert_eq!(
        parse_args(&args(&["in.ppm", "-q", "256"])).unwrap_err(),
        "quality must be a number 1-100"
    );
    assert_eq!(
        parse_args(&args(&["in.ppm", "-q", "255"])).unwrap_err(),
        "quality must be 1-100"
    );
    assert_eq!(parse_args(&args(&["in.ppm", "-q", "+7"])).unwrap().quality, 7);
    assert_eq!(parse_args(&args(&["in.ppm", "-q", "007"])).unwrap().quality, 7);
    assert!(parse_args(&args(&["in.ppm", "-q", ""])).is_err());
    assert!(parse_args(&args(&["in.ppm", "-q", " 7"])).is_err());
}

#[test]
fn restart_interval_bounds() {
    assert_eq!(parse_args(&args(&["in.ppm", "-r", "0"])).unwrap().restart_interval, 0);
    assert_eq!(parse_args(&args(&["in.ppm", "-r", "65535"])).unwrap().restart_interval, 65535);
    assert!(parse_args(&args(&["in.ppm", "-r", "65536"])).is_err());
}

#[test]
fn later_options_override_earlier_ones() {
    let opts = parse_args(&args(&["-q", "10", "in.ppm", "-q", "20", "-s", "444", "-s", "422"])).unwrap();
    assert_eq!(opts.input, "in.ppm");
    assert_eq!(opts.quality, 20);
    assert_eq!(opts.subsampling, Subsampling::S422);
}

#[test]
fn help_stops_parsing_at_once() {
    assert_eq!(parse_args(&args(&["in.ppm", "-h", "-q", "0"])).unwrap_err(), "__help__");
    // An error before the help flag is reported instead.
    assert_eq!(parse_args(&args(&["-q", "0", "-h"])).unwrap_err(), "quality must be 1-100");
}

#[test]
fn default_output_without_extension() {
    assert_eq!(parse_args(&args(&["photo"])).unwrap().output, "photo.jpg");
    assert_eq!(parse_args(&args(&["a.b.ppm"])).unwrap().output, "a.b.jpg");
}
