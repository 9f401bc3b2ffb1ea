use kernel::builtins::fs::resolve_path;
use kernel::fs::memfs::MemFs;
use kernel::shell::executor::{Builtin, Executor};
use kernel::shell::parse_line;
use kernel::vfs::{KPath, Namespace, OpenFlags};

struct Lcg(u64);

impl Lcg {
    fn next(&mut self) -> u64 {
        self.0 = self.0.wrapping_mul(6364136223846793005).wrapping_add(1442695040888963407);
        self.0 >> 33
    }

    fn string(&mut self, alphabet: &[char], max_len: u64) -> String {
        let n = self.next() % (max_len + 1);
        (0..n).map(|_| alphabet[(self.next() % alphabet.len() as u64) as usize]).collect()
    }
}

/// The command-line grammar written directly with `str`'s methods.
fn reference_parse(line: &str) -> Option<(String, Vec<String>, Option<(String, bool)>)> {
    let line = line.trim();
    if line.is_empty() {
        return None;
    }
    let mut redirect = None;
    let mut remaining = line;
    if let Some(pos) = remaining.find(">>") {
        let (before, after) = remaining.split_at(pos);
        remaining = before.trim();
        redirect = Some((String::from(after[2..].trim()), true));
    } else if let Some(pos) = remaining.find('>') {
        let (before, after) = remaining.split_at(pos);
        remaining = before.trim();
        redirect = Some((String::from(after[1..].trim()), false));
    }
    let parts: Vec<&str> = remaining.split_whitespace().collect();
    if parts.is_empty() {
        return None;
    }
    Some((
        String::from(parts[0]),
        parts[1..].iter().map(|s| String::from(*s)).collect(),
        redirect,
    ))
}

const ALPHABET: &[char] = &[
    'a', 'b', 'é', '-', '/', '.', ' ', ' ', '\t', '\n', '\r', '>', '>', '\u{3000}', '\u{85}', '+', '1',
];

#[test]
fn parse_line_agrees_with_str_methods() {
    let mut rng = Lcg(7);
    for _ in 0..3000 {
        let s = rng.string(ALPHABET, 14);
        let got = parse_line(&s).map(|c| (c.cmd, c.args, c.redirect));
        assert_eq!(got, reference_parse(&s), "input {:?}", s);
    }
}

fn reference_parent(s: &str) -> Option<String> {
    let t = s.trim_end_matches('/');
    match t.rfind('/') {
        Some(0) => Some(String::from("/")),
        Some(idx) => Some(String::from(&t[..idx])),
        None => None,
    }
}

fn reference_name(s: &str) -> String {
    let t = s.trim_end_matches('/');
    match t.rfind('/') {
        Some(idx) => String::from(&t[idx + 1..]),
        None => String::from(t),
    }
}

#[test]
fn kpath_agrees_with_str_methods() {
    let mut rng = Lcg(11);
    for _ in 0..3000 {
        let s = rng.string(&['a', 'é', '/', '/', '.'], 8);
        let o = rng.string(&['b', '/', '.'], 4);
        let k = KPath::new(&s);
        assert_eq!(k.parent().map(|p| String::from(p.as_str())), reference_parent(&s), "input {:?}", s);
        assert_eq!(k.name(), reference_name(&s), "input {:?}", s);
        let joined = if o.starts_with('/') {
            o.clone()
        } else if s.ends_with('/') {
            format!("{}{}", s, o)
        } else {
            format!("{}/{}", s, o)
        };
        assert_eq!(k.join(&o).as_str(), joined);
        let resolved = if o.starts_with('/') { o.clone() } else { format!("{}/{}", s.trim_end_matches('/'), o) };
        assert_eq!(resolve_path(&s, &o).as_str(), resolved);
    }
}

#[test]
fn wc_and_head_agree_with_str_methods() {
    let mut e = Executor::new();
    e.register("wc", Builtin::Wc);
    e.register("head", Builtin::Head);
    e.register("tail", Builtin::Tail);
    let mut rng = Lcg(3);
    for _ in 0..300 {
        let text = rng.string(&['x', 'y', ' ', '\n', '\r', '\t', 'é'], 40);
        let mut ns = Namespace::new();
        ns.mount("/", MemFs::new());
        let mut cwd = String::from("/");
        let mut f = ns.open(&KPath::new("/f"), OpenFlags::CREATE()).unwrap();
        ns.write(&mut f, text.as_bytes()).unwrap();
        let wc = e.execute(&parse_line("wc f").unwrap(), &mut ns, &mut cwd);
        let expected = format!(
            "{:>8} {:>8} {:>8} {}\r\n",
            text.lines().count(),
            text.split_whitespace().count(),
            text.len(),
            "f"
        );
        assert_eq!(wc, (0, expected), "input {:?}", text);
        let n = (rng.next() % 4) as usize;
        let head = e.execute(&parse_line(&format!("head -n {} f", n)).unwrap(), &mut ns, &mut cwd);
        let lines: Vec<&str> = text.lines().collect();
        let expected: String = lines[..n.min(lines.len())].iter().map(|l| format!("{}\r\n", l)).collect();
        assert_eq!(head, (0, expected));
        let tail = e.execute(&parse_line(&format!("tail -n {} f", n)).unwrap(), &mut ns, &mut cwd);
        let start = if lines.len() > n { lines.len() - n } else { 0 };
        let expected: String = lines[start..].iter().map(|l| format!("{}\r\n", l)).collect();
        assert_eq!(tail, (0, expected));
    }
}
