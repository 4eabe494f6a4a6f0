use vstd::prelude::*;
use vstd::string::StringExecFns;

use crate::fields::Fields;
use crate::http_client::HTTPMethod;
use crate::text::{chars_to_string, str_chars, split, lemma_split_pair};

verus! {

/// The command-line argument that hands the script the query argument `name` set to `value`.
pub open spec fn script_argument(name: Seq<char>, value: Seq<char>) -> Seq<char> {
    name + "="@ + value + " "@
}

/// The name of a method as the script receives it.
pub open spec fn method_argument(method: HTTPMethod) -> Seq<char> {
    match method {
        HTTPMethod::Get => "GET"@,
        HTTPMethod::Post => "POST"@,
    }
}

/// The arguments the PHP interpreter is run with to execute the script at `file_path`
/// for a request with `method` and the query arguments `args`: the configuration file,
/// the script, the method, then one argument per query argument.
pub fn php_arguments(file_path: &str, method: HTTPMethod, args: &Fields) -> (res: Vec<String>)
    ensures
        res@.len() == 4 + args.entry_seq().len(),
        res@[0]@ == "-c"@,
        res@[1]@ == "./php_config/php.ini"@,
        res@[2]@ == file_path@,
        res@[3]@ == method_argument(method),
        forall|i: int|
            0 <= i < args.entry_seq().len() ==> (#[trigger] res@[4 + i])@ == script_argument(
                args.entry_seq()[i].0@,
                args.entry_seq()[i].1@,
            ),
{
    let mut res: Vec<String> = Vec::new();
    res.push(String::from_str("-c"));
    res.push(String::from_str("./php_config/php.ini"));
    res.push(String::from_str(file_path));
    match method {
        HTTPMethod::Get => res.push(String::from_str("GET")),
        HTTPMethod::Post => res.push(String::from_str("POST")),
    }
    let n = args.len();
    let mut i: usize = 0;
    while i < n
        invariant
            n == args.entry_seq().len(),
            i <= n,
            res@.len() == 4 + i,
            res@[0]@ == "-c"@,
            res@[1]@ == "./php_config/php.ini"@,
            res@[2]@ == file_path@,
            res@[3]@ == method_argument(method),
            forall|j: int|
                0 <= j < i ==> (#[trigger] res@[4 + j])@ == script_argument(
                    args.entry_seq()[j].0@,
                    args.entry_seq()[j].1@,
                ),
        decreases n - i,
    {
        let (name, value) = args.entry(i);
        let mut arg = str_chars(name.as_str());
        let mut eq = str_chars("=");
        arg.append(&mut eq);
        let mut v = str_chars(value.as_str());
        arg.append(&mut v);
        let mut space = str_chars(" ");
        arg.append(&mut space);
        res.push(chars_to_string(&arg));
        i = i + 1;
    }
    res
}

/// A query argument reaches the script as its name, `=`, its value and a space, so the
/// script reads the name and the value back by splitting at the `=`.
pub proof fn script_argument_reads_back(name: Seq<char>, value: Seq<char>)
    requires
        !name.contains('='),
        !value.contains('='),
    ensures
        script_argument(name, value).last() == ' ',
        split(script_argument(name, value).drop_last(), seq!['=']) == seq![name, value],
{
    reveal_strlit("=");
    reveal_strlit(" ");
    assert(script_argument(name, value).drop_last() =~= name + seq!['='] + value);
    lemma_split_pair(name, '=', value);
}

} // verus!
