//! The passphrase word list: unaccented Vietnamese syllables, all in
//! lowercase ASCII letters, separated by single spaces.  The list handed
//! out keeps each syllable once.
use crate::text::{
    chars_of, lemma_words_nonempty, split_whitespace, str_views, string_from_chars, views,
    white_space, words_of,
};
use vstd::prelude::*;

verus! {

/// The syllables that passphrases are drawn from, separated by spaces.
pub const WORD_LIST: &'static str = "it ran om lam trong va gau rieng bac ghe beo on leo manh luc toc mai thap vanh bia mat \
    chung giay tim lo sao chen quan chia dao rong tay vay quoc kham cung chao te xanh la mu \
    tui tran rang han hai bat cua rau dam trinh vua hoc in hop mi goi tau dia bao nhu linh \
    cat tanh luon vui nien nhung ro them thang buon xuat xin trai trang the anh que gan \
    giong uong gat meo me thoi lien dep ruong heo go day xi ba binh xom nan giao minh gang \
    khoi sinh khoa voi hoa tam lich si nhau chuoi bua tu nai y van sa xua khe ngoi oc gioi \
    bay dien nen xen dinh nu ly nau thu thanh truoc chong ti khong tom chuong thay yeu duc \
    vu mon kia oanh hat dang sau banh lanh tren lau chu coc ngon cu tru xa sang thi ho tap \
    hung co duong xuong mo tham tung vat lao de pha muon im trung toa hua tua bai hong tho \
    tem trua da vuong qua chai bu di nguoi hay ram to xo tang hau na khuc dua cui ngu nang \
    truc my nghi bon rac tuoi quy ve huong chan vinh an tra nua tien du but sai gop chuan \
    bo xu bien noi lang xao buom tong giang giai gia ken mung than ngoc mong xem nhat ham \
    bep phuong loa le tan phan hoi ngay long tro nuoi diem xinh kim mau thit dau ao khach \
    hu gai ong bang hanh ri rem duoc che vo hang mien ma nao rung nghe dan kem muoi thuong \
    don tinh ten mot vem hieu cuoi thua gom tri phong con dong lup ni be lua moc khai nhan \
    vien ky viet cao nuoc ich chin xay nhieu suc trao tao lung loi tram soi vao chanh bot \
    ne phai yen thuy doi vai ra uoc xuan thac khan nhanh lon phu re toi song chat hen tuan \
    hinh khu man nhe viec no lai ngan rinh phuc gio thao vuon se canh sach chon may gap \
    thom tuy suoi chua ga tre sat kinh so cot rua dat xe khang dai sap bui gu buoi muc ta \
    sua can xoai then theo ha cuc sen cam ngai san chim he cau nay ngo chi bong goc qui ca \
    suong mao choi roi cham bung tia mua den lap";

/// The syllables of the word list, in order.
pub open spec fn word_seq() -> Seq<Seq<char>> {
    first_occurrences(words_of(WORD_LIST@))
}

/// The entries of `s` in order, each kept only where it first occurs.
pub open spec fn first_occurrences(s: Seq<Seq<char>>) -> Seq<Seq<char>>
    decreases s.len(),
{
    if s.len() == 0 {
        seq![]
    } else if s.drop_last().contains(s.last()) {
        first_occurrences(s.drop_last())
    } else {
        first_occurrences(s.drop_last()).push(s.last())
    }
}

/// Keeping first occurrences keeps exactly the entries there are.
pub proof fn lemma_first_occurrences(s: Seq<Seq<char>>)
    ensures
        first_occurrences(s).no_duplicates(),
        forall|x: Seq<char>| #[trigger] first_occurrences(s).contains(x) <==> s.contains(x),
    decreases s.len(),
{
    if s.len() > 0 {
        let init = s.drop_last();
        lemma_first_occurrences(init);
        let f = first_occurrences(init);
        assert forall|x: Seq<char>| s.contains(x) <==> (init.contains(x) || x == s.last()) by {
            if s.contains(x) {
                let i = choose|i: int| 0 <= i < s.len() && s[i] == x;
                if i < s.len() - 1 {
                    assert(init[i] == x);
                }
            }
            if init.contains(x) {
                let i = choose|i: int| 0 <= i < init.len() && init[i] == x;
                assert(s[i] == x);
            }
            if x == s.last() {
                assert(s[s.len() - 1] == x);
            }
        }
        if !init.contains(s.last()) {
            let g = f.push(s.last());
            assert forall|x: Seq<char>| g.contains(x) <==> (f.contains(x) || x == s.last()) by {
                if g.contains(x) {
                    let i = choose|i: int| 0 <= i < g.len() && g[i] == x;
                    if i < f.len() {
                        assert(f[i] == x);
                    }
                }
                if f.contains(x) {
                    let i = choose|i: int| 0 <= i < f.len() && f[i] == x;
                    assert(g[i] == x);
                }
                if x == s.last() {
                    assert(g[f.len() as int] == x);
                }
            }
            assert forall|i: int, j: int| 0 <= i < g.len() && 0 <= j < g.len() && i != j implies g[i]
                != g[j] by {
                if i < f.len() && j < f.len() {
                } else if i < f.len() {
                    assert(f.contains(g[i]));
                } else {
                    assert(f.contains(g[j]));
                }
            }
        }
    }
}

/// The word list is not empty and holds no word twice.
pub proof fn lemma_word_list_facts()
    ensures
        word_seq().len() > 0,
        word_seq().no_duplicates(),
{
    // The text of `WORD_LIST`, whose last character is a letter.
    reveal_strlit("it ran om lam trong va gau rieng bac ghe beo on leo manh luc toc mai thap vanh bia mat \
    chung giay tim lo sao chen quan chia dao rong tay vay quoc kham cung chao te xanh la mu \
    tui tran rang han hai bat cua rau dam trinh vua hoc in hop mi goi tau dia bao nhu linh \
    cat tanh luon vui nien nhung ro them thang buon xuat xin trai trang the anh que gan \
    giong uong gat meo me thoi lien dep ruong heo go day xi ba binh xom nan giao minh gang \
    khoi sinh khoa voi hoa tam lich si nhau chuoi bua tu nai y van sa xua khe ngoi oc gioi \
    bay dien nen xen dinh nu ly nau thu thanh truoc chong ti khong tom chuong thay yeu duc \
    vu mon kia oanh hat dang sau banh lanh tren lau chu coc ngon cu tru xa sang thi ho tap \
    hung co duong xuong mo tham tung vat lao de pha muon im trung toa hua tua bai hong tho \
    tem trua da vuong qua chai bu di nguoi hay ram to xo tang hau na khuc dua cui ngu nang \
    truc my nghi bon rac tuoi quy ve huong chan vinh an tra nua tien du but sai gop chuan \
    bo xu bien noi lang xao buom tong giang giai gia ken mung than ngoc mong xem nhat ham \
    bep phuong loa le tan phan hoi ngay long tro nuoi diem xinh kim mau thit dau ao khach \
    hu gai ong bang hanh ri rem duoc che vo hang mien ma nao rung nghe dan kem muoi thuong \
    don tinh ten mot vem hieu cuoi thua gom tri phong con dong lup ni be lua moc khai nhan \
    vien ky viet cao nuoc ich chin xay nhieu suc trao tao lung loi tram soi vao chanh bot \
    ne phai yen thuy doi vai ra uoc xuan thac khan nhanh lon phu re toi song chat hen tuan \
    hinh khu man nhe viec no lai ngan rinh phuc gio thao vuon se canh sach chon may gap \
    thom tuy suoi chua ga tre sat kinh so cot rua dat xe khang dai sap bui gu buoi muc ta \
    sua can xoai then theo ha cuc sen cam ngai san chim he cau nay ngo chi bong goc qui ca \
    suong mao choi roi cham bung tia mua den lap");
    assert(WORD_LIST@.len() > 0);
    assert(!white_space(WORD_LIST@.last()));
    lemma_words_nonempty(WORD_LIST@);
    let w = words_of(WORD_LIST@);
    lemma_first_occurrences(w);
    assert(w.contains(w[0]));
    assert(word_seq().contains(w[0]));
}

/// Whether `x` is among the strings of `v`.
fn listed(v: &Vec<String>, x: &Vec<char>) -> (r: bool)
    ensures
        r == str_views(v@).contains(x@),
{
    let mut k: usize = 0;
    while k < v.len()
        invariant
            k <= v@.len(),
            forall|j: int| 0 <= j < k ==> v@[j]@ != x@,
        decreases v@.len() - k,
    {
        let c = chars_of(v[k].as_str());
        if vec_eq(&c, x) {
            assert(str_views(v@)[k as int] == x@);
            return true;
        }
        k = k + 1;
    }
    assert forall|j: int| 0 <= j < v@.len() implies str_views(v@)[j] != x@ by {
        assert(str_views(v@)[j] == v@[j]@);
    }
    false
}

/// Whether two character vectors are equal.
fn vec_eq(a: &Vec<char>, b: &Vec<char>) -> (r: bool)
    ensures
        r == (a@ == b@),
{
    if a.len() != b.len() {
        return false;
    }
    let mut k: usize = 0;
    while k < a.len()
        invariant
            a@.len() == b@.len(),
            k <= a@.len(),
            forall|j: int| 0 <= j < k ==> a@[j] == b@[j],
        decreases a@.len() - k,
    {
        if a[k] != b[k] {
            assert(a@[k as int] != b@[k as int]);
            return false;
        }
        k = k + 1;
    }
    assert(a@ =~= b@);
    true
}

/// The syllables of the word list, in order, each once.
pub fn words() -> (out: Vec<String>)
    ensures
        str_views(out@) == word_seq(),
        str_views(out@).no_duplicates(),
{
    let parts = split_whitespace(&chars_of(WORD_LIST));
    let ghost all = words_of(WORD_LIST@);
    let mut out: Vec<String> = Vec::new();
    let mut k: usize = 0;
    assert(all.take(0) =~= Seq::<Seq<char>>::empty());
    while k < parts.len()
        invariant
            k <= parts@.len(),
            views(parts@) == all,
            str_views(out@) == first_occurrences(all.take(k as int)),
        decreases parts@.len() - k,
    {
        let ghost before = str_views(out@);
        let ghost pre = all.take(k as int);
        assert(all.take(k + 1).drop_last() =~= pre);
        assert(all.take(k + 1).last() == parts@[k as int]@);
        proof {
            lemma_first_occurrences(pre);
        }
        if !listed(&out, &parts[k]) {
            let w = string_from_chars(&parts[k]);
            out.push(w);
            assert(str_views(out@) =~= before.push(parts@[k as int]@));
        }
        k = k + 1;
    }
    assert(all.take(parts@.len() as int) =~= all);
    proof {
        lemma_first_occurrences(all);
    }
    out
}

} // verus!
