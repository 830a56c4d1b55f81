pub mod super_grand_link_express_hold_and_win;
