//! The library's error type: what went wrong, where, in which kind of file.

use vstd::prelude::*;

use crate::cfg::channel::push_str;
use crate::text::{chars_to_string, dec, dec_padded, push_dec, push_dec_padded};

verus! {

/// The member of a COMTRADE file group that an error refers to.
#[derive(Debug, Clone, Copy, PartialEq, Eq, Structural)]
pub enum FileRole {
    /// Configuration file (`.cfg`).
    Cfg,
    /// Sample data file (`.dat`).
    Dat,
    /// Information file (`.inf`).
    Inf,
    /// Device model file (`.dmf`).
    Dmf,
    /// Combined single file (`.cff`).
    Cff,
    /// Recorder dump (`.dfr`).
    Dfr,
    /// Free-text header file (`.hdr`).
    Hdr,
}

/// Why a text line could not be parsed.
#[derive(Debug, Clone, Copy, PartialEq, Eq, Structural)]
pub enum ParseReason {
    /// The channel-count line has fewer than three comma-separated fields.
    ChannelCountLine,
    /// The text header of a recorder dump has no line at all.
    EmptyWndr,
    /// A configuration file has fewer than ten lines (how many it has).
    TooFewLines(usize),
    /// A configuration file ends before its sampling lines.
    NoSamplingLines,
    /// A configuration file ends before its two timestamps and data type.
    NoTimeLines,
    /// The data-type line of a configuration file names no known layout.
    UnknownDataType,
    /// A data file has no analog column while its configuration announces some.
    NoAnalogColumns,
    /// A column number beyond the columns of its kind.
    ColumnOutOfRange(usize),
    /// A new column whose length (first) differs from the number of samples (second).
    ColumnLength(usize, usize),
    /// A status value other than 0 or 1.
    StatusValue,
    /// A row range `[start, end)` that is empty or beyond the samples (start, end,
    /// number of samples).
    RowRange(usize, usize, usize),
    /// More samples (first) than the configuration states (second).
    ExtraRows(usize, usize),
    /// A binary data file whose length (first) is not a whole number of records of the
    /// size given second.
    PartialRecord(usize, usize),
    /// A binary data file whose number of records (second) differs from the number of
    /// samples the configuration states (first).
    SampleCount(usize, usize),
}

/// Why a binary region could not be parsed.
#[derive(Debug, Clone, Copy, PartialEq, Eq, Structural)]
pub enum BinaryReason {
    /// A DFR file has no `[Data]\r\n` marker and is shorter than its text header.
    MissingDataMarker,
}

/// Why a timestamp was refused.
#[derive(Debug, Clone, PartialEq, Eq)]
pub enum TimeError {
    /// Month outside 1..=12.
    InvalidMonth(u8),
    /// Day outside 1..=31.
    InvalidDay(u8),
    /// Hour, minute or second out of range.
    InvalidTime,
    /// Microsecond above 999999.
    InvalidMicro(u32),
    /// Day beyond the length of its month.
    InvalidDate { year: u16, month: u8, day: u8 },
    /// No known layout matched the text (the normalised text is kept).
    Unparsable(String),
}

/// Why an XML document was refused.
#[derive(Debug, Clone, Copy, PartialEq, Eq, Structural)]
pub enum XmlReason {
    /// The input ends right after `<`.
    UnexpectedEnd,
    /// Character data is not valid UTF-8.
    InvalidTextUtf8,
    /// A comment is never closed.
    UnclosedComment,
    /// A CDATA section is not valid UTF-8.
    InvalidCdataUtf8,
    /// A CDATA section is never closed.
    UnclosedCdata,
    /// An attribute value is not valid UTF-8.
    InvalidAttrUtf8,
}

/// Errors of the library.
#[derive(Debug, Clone, PartialEq, Eq)]
pub enum Error {
    /// A line of a text file could not be parsed (`line` is 1-based, 0 when unknown).
    Parse { role: FileRole, line: usize, reason: ParseReason },
    /// A field that must be a number is not one.
    Number { role: FileRole, text: String },
    /// A binary region could not be parsed at byte `offset`.
    Binary { role: FileRole, offset: usize, reason: BinaryReason },
    /// A timestamp could not be built or parsed.
    Time(TimeError),
    /// An XML document could not be read at byte `position`.
    Xml { position: usize, reason: XmlReason },
    /// Reading or writing this kind of file is not supported.
    UnsupportedFormat(FileRole),
}

/// The name of a file kind in messages.
pub open spec fn role_name(r: FileRole) -> Seq<char> {
    match r {
        FileRole::Cfg => "CFG"@,
        FileRole::Dat => "DAT"@,
        FileRole::Inf => "INF"@,
        FileRole::Dmf => "DMF"@,
        FileRole::Cff => "CFF"@,
        FileRole::Dfr => "DFR"@,
        FileRole::Hdr => "HDR"@,
    }
}

fn push_role(out: &mut Vec<char>, r: FileRole)
    ensures
        final(out)@ == old(out)@ + role_name(r),
{
    match r {
        FileRole::Cfg => push_str(out, "CFG"),
        FileRole::Dat => push_str(out, "DAT"),
        FileRole::Inf => push_str(out, "INF"),
        FileRole::Dmf => push_str(out, "DMF"),
        FileRole::Cff => push_str(out, "CFF"),
        FileRole::Dfr => push_str(out, "DFR"),
        FileRole::Hdr => push_str(out, "HDR"),
    }
}

/// What a parse reason says.
pub open spec fn parse_reason_text(r: ParseReason) -> Seq<char> {
    match r {
        ParseReason::ChannelCountLine => "通道数行格式错误"@,
        ParseReason::EmptyWndr => "WNDR 文本为空"@,
        ParseReason::TooFewLines(n) => "行数不足，至少需要10行，实际"@ + dec(n as nat) + "行"@,
        ParseReason::NoSamplingLines => "行数不足"@,
        ParseReason::NoTimeLines => "时间行不足"@,
        ParseReason::UnknownDataType => "未知数据格式"@,
        ParseReason::NoAnalogColumns => "缺少模拟量列"@,
        ParseReason::ColumnOutOfRange(i) => "通道下标越界: "@ + dec(i as nat),
        ParseReason::ColumnLength(a, b) => "新列长度 "@ + dec(a as nat) + " 与采样点数 "@ + dec(
            b as nat,
        ) + " 不一致"@,
        ParseReason::StatusValue => "状态量取值只能为 0 或 1"@,
        ParseReason::RowRange(a, b, n) => "行区间越界: ["@ + dec(a as nat) + ", "@ + dec(b as nat)
            + ")，采样点数 "@ + dec(n as nat),
        ParseReason::ExtraRows(n, e) => "采样点数 "@ + dec(n as nat) + " 超过 CFG 声明的 "@ + dec(
            e as nat,
        ),
        ParseReason::PartialRecord(len, rs) => "数据长度 "@ + dec(len as nat) + " 不是记录大小 "@
            + dec(rs as nat) + " 的整数倍"@,
        ParseReason::SampleCount(e, n) => "记录数 "@ + dec(n as nat) + " 与 CFG 采样点数 "@ + dec(
            e as nat,
        ) + " 不一致"@,
    }
}

fn push_parse_reason(out: &mut Vec<char>, r: ParseReason)
    ensures
        final(out)@ == old(out)@ + parse_reason_text(r),
{
    let ghost before = out@;
    match r {
        ParseReason::ChannelCountLine => push_str(out, "通道数行格式错误"),
        ParseReason::EmptyWndr => push_str(out, "WNDR 文本为空"),
        ParseReason::TooFewLines(n) => {
            push_str(out, "行数不足，至少需要10行，实际");
            push_dec(out, n as u64);
            push_str(out, "行");
        },
        ParseReason::NoSamplingLines => push_str(out, "行数不足"),
        ParseReason::NoTimeLines => push_str(out, "时间行不足"),
        ParseReason::UnknownDataType => push_str(out, "未知数据格式"),
        ParseReason::NoAnalogColumns => push_str(out, "缺少模拟量列"),
        ParseReason::ColumnOutOfRange(i) => {
            push_str(out, "通道下标越界: ");
            push_dec(out, i as u64);
        },
        ParseReason::ColumnLength(a, b) => {
            push_str(out, "新列长度 ");
            push_dec(out, a as u64);
            push_str(out, " 与采样点数 ");
            push_dec(out, b as u64);
            push_str(out, " 不一致");
        },
        ParseReason::StatusValue => push_str(out, "状态量取值只能为 0 或 1"),
        ParseReason::RowRange(a, b, n) => {
            push_str(out, "行区间越界: [");
            push_dec(out, a as u64);
            push_str(out, ", ");
            push_dec(out, b as u64);
            push_str(out, ")，采样点数 ");
            push_dec(out, n as u64);
        },
        ParseReason::ExtraRows(n, e) => {
            push_str(out, "采样点数 ");
            push_dec(out, n as u64);
            push_str(out, " 超过 CFG 声明的 ");
            push_dec(out, e as u64);
        },
        ParseReason::PartialRecord(len, rs) => {
            push_str(out, "数据长度 ");
            push_dec(out, len as u64);
            push_str(out, " 不是记录大小 ");
            push_dec(out, rs as u64);
            push_str(out, " 的整数倍");
        },
        ParseReason::SampleCount(e, n) => {
            push_str(out, "记录数 ");
            push_dec(out, n as u64);
            push_str(out, " 与 CFG 采样点数 ");
            push_dec(out, e as u64);
            push_str(out, " 不一致");
        },
    }
    assert(out@ =~= before + parse_reason_text(r));
}

/// What a refused timestamp says.
pub open spec fn time_error_text(t: TimeError) -> Seq<char> {
    match t {
        TimeError::InvalidMonth(m) => "无效月份: "@ + dec(m as nat),
        TimeError::InvalidDay(d) => "无效日期: "@ + dec(d as nat),
        TimeError::InvalidTime => "无效时间"@,
        TimeError::InvalidMicro(u) => "无效微秒: "@ + dec(u as nat),
        TimeError::InvalidDate { year, month, day } => "无效日期: "@ + dec(year as nat) + "-"@
            + dec_padded(month as nat, 2) + "-"@ + dec_padded(day as nat, 2),
        TimeError::Unparsable(s) => "无法解析时间: '"@ + s@ + "'"@,
    }
}

fn push_time_error(out: &mut Vec<char>, t: &TimeError)
    ensures
        final(out)@ == old(out)@ + time_error_text(*t),
{
    let ghost before = out@;
    match t {
        TimeError::InvalidMonth(m) => {
            push_str(out, "无效月份: ");
            push_dec(out, *m as u64);
        },
        TimeError::InvalidDay(d) => {
            push_str(out, "无效日期: ");
            push_dec(out, *d as u64);
        },
        TimeError::InvalidTime => push_str(out, "无效时间"),
        TimeError::InvalidMicro(u) => {
            push_str(out, "无效微秒: ");
            push_dec(out, *u as u64);
        },
        TimeError::InvalidDate { year, month, day } => {
            push_str(out, "无效日期: ");
            push_dec(out, *year as u64);
            push_str(out, "-");
            push_dec_padded(out, *month as u64, 2);
            push_str(out, "-");
            push_dec_padded(out, *day as u64, 2);
        },
        TimeError::Unparsable(s) => {
            push_str(out, "无法解析时间: '");
            push_str(out, s.as_str());
            push_str(out, "'");
        },
    }
    assert(out@ =~= before + time_error_text(*t));
}

/// What a refused XML document says.
pub open spec fn xml_reason_text(r: XmlReason) -> Seq<char> {
    match r {
        XmlReason::UnexpectedEnd => "意外的文件结束"@,
        XmlReason::InvalidTextUtf8 => "无效的 UTF-8 文本"@,
        XmlReason::UnclosedComment => "未闭合的注释"@,
        XmlReason::InvalidCdataUtf8 => "无效的 UTF-8 CDATA"@,
        XmlReason::UnclosedCdata => "未闭合的 CDATA"@,
        XmlReason::InvalidAttrUtf8 => "无效的 UTF-8 属性值"@,
    }
}

fn push_xml_reason(out: &mut Vec<char>, r: XmlReason)
    ensures
        final(out)@ == old(out)@ + xml_reason_text(r),
{
    match r {
        XmlReason::UnexpectedEnd => push_str(out, "意外的文件结束"),
        XmlReason::InvalidTextUtf8 => push_str(out, "无效的 UTF-8 文本"),
        XmlReason::UnclosedComment => push_str(out, "未闭合的注释"),
        XmlReason::InvalidCdataUtf8 => push_str(out, "无效的 UTF-8 CDATA"),
        XmlReason::UnclosedCdata => push_str(out, "未闭合的 CDATA"),
        XmlReason::InvalidAttrUtf8 => push_str(out, "无效的 UTF-8 属性值"),
    }
}

/// Where an error in a file of kind `role` stands: the kind, and the line when known.
pub open spec fn place_text(role: FileRole, line: usize) -> Seq<char> {
    if line > 0 {
        role_name(role) + " 第 "@ + dec(line as nat) + " 行: "@
    } else {
        role_name(role) + ": "@
    }
}

/// The message of an error.
pub open spec fn message_text(e: Error) -> Seq<char> {
    match e {
        Error::Parse { role, line, reason } => place_text(role, line) + parse_reason_text(reason),
        Error::Number { role, text } => role_name(role) + ": 不是有效数值: '"@ + text@ + "'"@,
        Error::Binary { role, offset, reason } => role_name(role) + " 第 "@ + dec(offset as nat)
            + " 字节: "@ + match reason {
            BinaryReason::MissingDataMarker => "缺少 [Data]\\r\\n 标记，且文件短于 WNDR 文本头"@,
        },
        Error::Time(t) => "时间错误: "@ + time_error_text(t),
        Error::Xml { position, reason } => "XML 第 "@ + dec(position as nat) + " 字节: "@
            + xml_reason_text(reason),
        Error::UnsupportedFormat(role) => role_name(role) + ": 暂不支持该格式"@,
    }
}

impl Error {
    /// The error as a message (see `message_text`).
    pub fn message(&self) -> (r: String)
        ensures
            r@ == message_text(*self),
    {
        let mut out: Vec<char> = Vec::new();
        match self {
            Error::Parse { role, line, reason } => {
                push_role(&mut out, *role);
                if *line > 0 {
                    push_str(&mut out, " 第 ");
                    push_dec(&mut out, *line as u64);
                    push_str(&mut out, " 行: ");
                } else {
                    push_str(&mut out, ": ");
                }
                push_parse_reason(&mut out, *reason);
            },
            Error::Number { role, text } => {
                push_role(&mut out, *role);
                push_str(&mut out, ": 不是有效数值: '");
                push_str(&mut out, text.as_str());
                push_str(&mut out, "'");
            },
            Error::Binary { role, offset, reason } => {
                push_role(&mut out, *role);
                push_str(&mut out, " 第 ");
                push_dec(&mut out, *offset as u64);
                push_str(&mut out, " 字节: ");
                match reason {
                    BinaryReason::MissingDataMarker => push_str(
                        &mut out,
                        "缺少 [Data]\\r\\n 标记，且文件短于 WNDR 文本头",
                    ),
                }
            },
            Error::Time(t) => {
                push_str(&mut out, "时间错误: ");
                push_time_error(&mut out, t);
            },
            Error::Xml { position, reason } => {
                push_str(&mut out, "XML 第 ");
                push_dec(&mut out, *position as u64);
                push_str(&mut out, " 字节: ");
                push_xml_reason(&mut out, *reason);
            },
            Error::UnsupportedFormat(role) => {
                push_role(&mut out, *role);
                push_str(&mut out, ": 暂不支持该格式");
            },
        }
        assert(out@ =~= message_text(*self));
        chars_to_string(out.as_slice())
    }
}

} // verus!
