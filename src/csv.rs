use vstd::prelude::*;
use vstd::string::StringExecFns;
use crate::record::FileMeta;

verus! {

/// `s` with each double quote doubled.
pub open spec fn escape_quotes(s: Seq<char>) -> Seq<char>
    decreases s.len(),
{
    if s.len() == 0 {
        Seq::empty()
    } else {
        escape_quotes(s.drop_last()) + if s.last() == '"' {
            seq!['"', '"']
        } else {
            seq![s.last()]
        }
    }
}

pub open spec fn digit_char(d: nat) -> char {
    seq!['0', '1', '2', '3', '4', '5', '6', '7', '8', '9'][d as int]
}

/// The decimal digits of `n`, without leading zeros.
pub open spec fn decimal(n: nat) -> Seq<char>
    decreases n,
{
    if n < 10 {
        seq![digit_char(n)]
    } else {
        decimal(n / 10).push(digit_char(n % 10))
    }
}

/// Relies on `str::replace`: every `"` of `s` replaced by `""`.
#[verifier::external_body]
fn replace_quotes(s: &str) -> (r: String)
    ensures
        r@ == escape_quotes(s@),
{
    s.replace('"', "\"\"")
}

/// Relies on `u64::to_string`: the decimal digits of `n`.
#[verifier::external_body]
fn decimal_string(n: u64) -> (r: String)
    ensures
        r@ == decimal(n as nat),
{
    n.to_string()
}

/// One line of the table: path and folder quoted with their quotes doubled, the size
/// bare, the other fields quoted as they are.
pub open spec fn csv_row(f: FileMeta) -> Seq<char> {
    "\""@ + escape_quotes(f.filename@) + "\",\""@ + escape_quotes(f.folder@) + "\","@ + decimal(
        f.size as nat,
    ) + ",\""@ + f.mime@ + "\",\""@ + f.hash@ + "\",\""@ + f.filetype@ + "\"\n"@
}

pub open spec fn csv_rows(files: Seq<FileMeta>) -> Seq<char>
    decreases files.len(),
{
    if files.len() == 0 {
        Seq::empty()
    } else {
        csv_rows(files.drop_last()) + csv_row(files.last())
    }
}

/// The header line, then one line per record.
pub open spec fn csv_text(files: Seq<FileMeta>) -> Seq<char> {
    "filename,folder,size,mime,hash,filetype\n"@ + csv_rows(files)
}

/// The inventory as comma-separated text.
pub fn generate_csv(files: &[FileMeta]) -> (r: String)
    ensures
        r@ == csv_text(files@),
{
    let mut csv = String::from_str("filename,folder,size,mime,hash,filetype\n");
    let mut i: usize = 0;
    while i < files.len()
        invariant
            i <= files@.len(),
            csv@ == csv_text(files@.subrange(0, i as int)),
        decreases files@.len() - i,
    {
        let f = &files[i];
        let ghost before = csv@;
        csv.append("\"");
        csv.append(replace_quotes(f.filename.as_str()).as_str());
        csv.append("\",\"");
        csv.append(replace_quotes(f.folder.as_str()).as_str());
        csv.append("\",");
        csv.append(decimal_string(f.size).as_str());
        csv.append(",\"");
        csv.append(f.mime.as_str());
        csv.append("\",\"");
        csv.append(f.hash.as_str());
        csv.append("\",\"");
        csv.append(f.filetype.as_str());
        csv.append("\"\n");
        proof {
            let next = files@.subrange(0, i + 1);
            assert(next.drop_last() =~= files@.subrange(0, i as int));
            assert(next.last() == *f);
            assert(csv@ =~= before + csv_row(*f));
            assert(csv@ =~= csv_text(next));
        }
        i = i + 1;
    }
    assert(files@.subrange(0, i as int) =~= files@);
    csv
}

} // verus!
